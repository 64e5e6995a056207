//! The MIME-association store.
//!
//! Holds the merged `mimeapps.list` model: which application is the default
//! for each MIME type, which further associations were added, and which were
//! removed. Mutations validate their inputs first and leave the store
//! untouched on a validation failure. All reading and writing of actual
//! files stays with the caller; the store works on file contents and
//! produces file contents.

use vstd::prelude::*;

use crate::listmap::ListMap;
use crate::listmap::as_map;
use crate::listmap::distinct_keys;
use crate::listmap::has_key;
use crate::listmap::lemma_as_map_take_step;
use crate::assoc_format::parse_model;
use crate::strutil::clone_strings;
use crate::strutil::str_eq;

verus! {

/// Rejected input to a mutation: the text carried is the offending argument.
#[derive(Debug, Clone)]
pub enum ConfigError {
    InvalidMimeType(String),
    InvalidAppId(String),
}

/// A character allowed within either half of a MIME type.
pub open spec fn valid_mime_char(c: char) -> bool {
    ('a' <= c && c <= 'z') || ('A' <= c && c <= 'Z') || ('0' <= c && c <= '9') || c == '-'
        || c == '.' || c == '+'
}

/// A well-formed MIME type: `type/subtype`, both halves non-empty and made
/// only of ASCII alphanumerics, `-`, `.` and `+`. Exactly one slash follows,
/// since a slash is not a valid character for either half.
pub open spec fn valid_mime(s: Seq<char>) -> bool {
    exists|i: int|
        0 < i < s.len() - 1 && s[i] == '/' && (forall|j: int|
            0 <= j < s.len() && j != i ==> valid_mime_char(#[trigger] s[j]))
}

/// A well-formed application id: a non-empty name followed by `.desktop`.
pub open spec fn valid_app_id(s: Seq<char>) -> bool {
    let n = s.len();
    n > 8 && s[n - 8] == '.' && s[n - 7] == 'd' && s[n - 6] == 'e' && s[n - 5] == 's' && s[n - 4]
        == 'k' && s[n - 3] == 't' && s[n - 2] == 'o' && s[n - 1] == 'p'
}

/// The list under `k`, or the empty list when `k` is absent.
pub open spec fn list_or_empty(m: Map<Seq<char>, Seq<Seq<char>>>, k: Seq<char>) -> Seq<Seq<char>> {
    if m.contains_key(k) {
        m[k]
    } else {
        Seq::empty()
    }
}

/// The configured default for `mime`: the first entry of its list.
pub open spec fn default_of(m: Map<Seq<char>, Seq<Seq<char>>>, mime: Seq<char>) -> Option<
    Seq<char>,
> {
    if m.contains_key(mime) && m[mime].len() > 0 {
        Some(m[mime][0])
    } else {
        None
    }
}

/// `s` with later duplicates dropped: each element kept at its first position.
pub open spec fn dedup_first(s: Seq<Seq<char>>) -> Seq<Seq<char>>
    decreases s.len(),
{
    if s.len() == 0 {
        s
    } else {
        let d = dedup_first(s.drop_last());
        if d.contains(s.last()) {
            d
        } else {
            d.push(s.last())
        }
    }
}

/// `s` without every element equal to `id`, order otherwise kept.
pub open spec fn remove_id(s: Seq<Seq<char>>, id: Seq<char>) -> Seq<Seq<char>>
    decreases s.len(),
{
    if s.len() == 0 {
        s
    } else if s[0] == id {
        remove_id(s.drop_first(), id)
    } else {
        seq![s[0]] + remove_id(s.drop_first(), id)
    }
}

/// `s` without every element listed in `banned`, order otherwise kept.
pub open spec fn minus_listed(s: Seq<Seq<char>>, banned: Seq<Seq<char>>) -> Seq<Seq<char>>
    decreases s.len(),
{
    if s.len() == 0 {
        s
    } else if banned.contains(s[0]) {
        minus_listed(s.drop_first(), banned)
    } else {
        seq![s[0]] + minus_listed(s.drop_first(), banned)
    }
}

/// [`remove_id`] distributes over concatenation.
pub proof fn lemma_remove_id_concat(a: Seq<Seq<char>>, b: Seq<Seq<char>>, id: Seq<char>)
    ensures
        remove_id(a + b, id) == remove_id(a, id) + remove_id(b, id),
    decreases a.len(),
{
    if a.len() == 0 {
        assert(a + b =~= b);
        assert(remove_id(a, id) + remove_id(b, id) =~= remove_id(b, id));
    } else {
        assert((a + b).drop_first() =~= a.drop_first() + b);
        lemma_remove_id_concat(a.drop_first(), b, id);
        if a[0] == id {
        } else {
            assert(seq![a[0]] + (remove_id(a.drop_first(), id) + remove_id(b, id)) =~= (seq![a[0]]
                + remove_id(a.drop_first(), id)) + remove_id(b, id));
        }
    }
}

/// Nothing equal to `id` survives [`remove_id`].
pub proof fn lemma_remove_id_clean(s: Seq<Seq<char>>, id: Seq<char>)
    ensures
        forall|i: int| 0 <= i < remove_id(s, id).len() ==> remove_id(s, id)[i] != id,
    decreases s.len(),
{
    if s.len() > 0 {
        lemma_remove_id_clean(s.drop_first(), id);
        assert forall|i: int| 0 <= i < remove_id(s, id).len() implies remove_id(s, id)[i]
            != id by {
            if s[0] != id && i > 0 {
                assert(remove_id(s, id)[i] == remove_id(s.drop_first(), id)[i - 1]);
            }
        }
    }
}

/// [`remove_id`] of a one-element sequence.
pub proof fn lemma_remove_id_single(el: Seq<char>, id: Seq<char>)
    ensures
        el != id ==> remove_id(seq![el], id) == seq![el],
        el == id ==> remove_id(seq![el], id) == Seq::<Seq<char>>::empty(),
{
    reveal_with_fuel(remove_id, 2);
    assert(seq![el].drop_first() =~= Seq::<Seq<char>>::empty());
    if el != id {
        assert(remove_id(seq![el], id) =~= seq![el]);
    } else {
        assert(remove_id(seq![el], id) =~= Seq::<Seq<char>>::empty());
    }
}

/// [`minus_listed`] of a one-element sequence.
pub proof fn lemma_minus_listed_single(el: Seq<char>, banned: Seq<Seq<char>>)
    ensures
        !banned.contains(el) ==> minus_listed(seq![el], banned) == seq![el],
        banned.contains(el) ==> minus_listed(seq![el], banned) == Seq::<Seq<char>>::empty(),
{
    reveal_with_fuel(minus_listed, 2);
    assert(seq![el].drop_first() =~= Seq::<Seq<char>>::empty());
    if !banned.contains(el) {
        assert(minus_listed(seq![el], banned) =~= seq![el]);
    } else {
        assert(minus_listed(seq![el], banned) =~= Seq::<Seq<char>>::empty());
    }
}

/// A sequence with no element equal to `id` is unchanged by [`remove_id`].
pub proof fn lemma_remove_id_of_clean(s: Seq<Seq<char>>, id: Seq<char>)
    requires
        forall|i: int| 0 <= i < s.len() ==> s[i] != id,
    ensures
        remove_id(s, id) == s,
    decreases s.len(),
{
    if s.len() > 0 {
        assert(forall|i: int|
            0 <= i < s.drop_first().len() ==> s.drop_first()[i] == s[i + 1]);
        lemma_remove_id_of_clean(s.drop_first(), id);
        assert(seq![s[0]] + s.drop_first() =~= s);
    }
}

/// [`minus_listed`] distributes over concatenation.
pub proof fn lemma_minus_listed_concat(a: Seq<Seq<char>>, b: Seq<Seq<char>>, banned: Seq<Seq<char>>)
    ensures
        minus_listed(a + b, banned) == minus_listed(a, banned) + minus_listed(b, banned),
    decreases a.len(),
{
    if a.len() == 0 {
        assert(a + b =~= b);
        assert(minus_listed(a, banned) + minus_listed(b, banned) =~= minus_listed(b, banned));
    } else {
        assert((a + b).drop_first() =~= a.drop_first() + b);
        lemma_minus_listed_concat(a.drop_first(), b, banned);
        if banned.contains(a[0]) {
        } else {
            assert(seq![a[0]] + (minus_listed(a.drop_first(), banned) + minus_listed(b, banned))
                =~= (seq![a[0]] + minus_listed(a.drop_first(), banned)) + minus_listed(b, banned));
        }
    }
}

/// `a` followed by those elements of `b` not already present, first
/// occurrences kept in order.
pub open spec fn list_union(a: Seq<Seq<char>>, b: Seq<Seq<char>>) -> Seq<Seq<char>>
    decreases b.len(),
{
    if b.len() == 0 {
        a
    } else if a.contains(b[0]) {
        list_union(a, b.drop_first())
    } else {
        list_union(a.push(b[0]), b.drop_first())
    }
}

/// Two association mappings merged: keys of either side, each list the
/// union of the two lists under that key, the first side's entries first.
pub open spec fn union_merge(
    m1: Map<Seq<char>, Seq<Seq<char>>>,
    m2: Map<Seq<char>, Seq<Seq<char>>>,
) -> Map<Seq<char>, Seq<Seq<char>>> {
    Map::new(
        |k: Seq<char>| m1.contains_key(k) || m2.contains_key(k),
        |k: Seq<char>| list_union(list_or_empty(m1, k), list_or_empty(m2, k)),
    )
}

/// A union with nothing to add is the left side.
pub proof fn lemma_list_union_empty(a: Seq<Seq<char>>)
    ensures
        list_union(a, Seq::<Seq<char>>::empty()) == a,
{
}

/// Merging one further key into the right side of a [`union_merge`].
proof fn lemma_union_merge_step(
    m1: Map<Seq<char>, Seq<Seq<char>>>,
    m2: Map<Seq<char>, Seq<Seq<char>>>,
    k: Seq<char>,
    v: Seq<Seq<char>>,
)
    requires
        !m2.contains_key(k),
    ensures
        union_merge(m1, m2.insert(k, v)) == union_merge(m1, m2).insert(
            k,
            list_union(list_or_empty(m1, k), v),
        ),
{
    let lhs = union_merge(m1, m2.insert(k, v));
    let rhs = union_merge(m1, m2).insert(k, list_union(list_or_empty(m1, k), v));
    assert forall|k2: Seq<char>| lhs.contains_key(k2) implies rhs.contains_key(k2) && lhs[k2]
        == rhs[k2] by {
        if k2 == k {
            assert(list_or_empty(m2.insert(k, v), k) == v);
        } else {
            assert(list_or_empty(m2.insert(k, v), k2) == list_or_empty(m2, k2));
        }
    }
    assert(lhs =~= rhs);
}

/// Overriding one further key on the right side of `union_prefer_right`.
proof fn lemma_union_right_step(
    m1: Map<Seq<char>, Seq<Seq<char>>>,
    m2: Map<Seq<char>, Seq<Seq<char>>>,
    k: Seq<char>,
    v: Seq<Seq<char>>,
)
    ensures
        m1.union_prefer_right(m2.insert(k, v)) == m1.union_prefer_right(m2).insert(k, v),
{
    assert(m1.union_prefer_right(m2.insert(k, v)) =~= m1.union_prefer_right(m2).insert(k, v));
}

/// The ids associated with a MIME type: defaults first, then added entries
/// not already listed, with every removed id filtered out at the end.
pub open spec fn associations_of(
    d: Map<Seq<char>, Seq<Seq<char>>>,
    a: Map<Seq<char>, Seq<Seq<char>>>,
    rm: Map<Seq<char>, Seq<Seq<char>>>,
    mime: Seq<char>,
) -> Seq<Seq<char>> {
    minus_listed(
        dedup_first(list_or_empty(d, mime) + list_or_empty(a, mime)),
        list_or_empty(rm, mime),
    )
}

/// One association-list source, parsed: the three raw mappings of one file.
pub struct ParsedMimeApps {
    pub default_apps: ListMap,
    pub added_associations: ListMap,
    pub removed_associations: ListMap,
}

impl ParsedMimeApps {
    /// All three mappings have distinct keys.
    pub open spec fn wf(&self) -> bool {
        self.default_apps.wf() && self.added_associations.wf() && self.removed_associations.wf()
    }

    /// A record with no associations at all.
    pub fn empty() -> (r: ParsedMimeApps)
        ensures
            r.wf(),
            r.default_apps.map_view() == Map::<Seq<char>, Seq<Seq<char>>>::empty(),
            r.added_associations.map_view() == Map::<Seq<char>, Seq<Seq<char>>>::empty(),
            r.removed_associations.map_view() == Map::<Seq<char>, Seq<Seq<char>>>::empty(),
    {
        ParsedMimeApps {
            default_apps: ListMap::new(),
            added_associations: ListMap::new(),
            removed_associations: ListMap::new(),
        }
    }
}

/// The merged, mutable association store of one process.
pub struct MimeAppsConfig {
    /// Default application ids for each MIME type, authoritative first.
    pub default_apps: ListMap,
    /// Further associations shown alongside the default.
    pub added_associations: ListMap,
    /// Associations suppressed for each MIME type.
    pub removed_associations: ListMap,
    /// Where a serialised store is to be written back.
    pub path: String,
}

impl MimeAppsConfig {
    /// All three mappings have distinct keys.
    pub open spec fn wf(&self) -> bool {
        self.default_apps.wf() && self.added_associations.wf() && self.removed_associations.wf()
    }

    /// The write-back location.
    pub open spec fn path_view(&self) -> Seq<char> {
        self.path@
    }

    /// An empty store that writes back to `path`.
    pub fn empty(path: String) -> (r: MimeAppsConfig)
        ensures
            r.wf(),
            r.path_view() == path@,
            r.default_apps.map_view() == Map::<Seq<char>, Seq<Seq<char>>>::empty(),
            r.added_associations.map_view() == Map::<Seq<char>, Seq<Seq<char>>>::empty(),
            r.removed_associations.map_view() == Map::<Seq<char>, Seq<Seq<char>>>::empty(),
    {
        MimeAppsConfig {
            default_apps: ListMap::new(),
            added_associations: ListMap::new(),
            removed_associations: ListMap::new(),
            path,
        }
    }

    /// The path the store writes back to.
    pub fn path(&self) -> (r: &String)
        ensures
            r@ == self.path_view(),
    {
        &self.path
    }

    /// Checks that `mime` has the `type/subtype` shape, both halves
    /// non-empty and made only of ASCII alphanumerics, `-`, `.` and `+`.
    pub fn validate_mime_type(mime: &str) -> (r: Result<(), ConfigError>)
        ensures
            r is Ok <==> valid_mime(mime@),
            r is Err ==> r->Err_0 is InvalidMimeType && r->Err_0->InvalidMimeType_0@ == mime@,
    {
        let n = mime.unicode_len();
        let mut slash: usize = n;
        let mut i: usize = 0;
        while i < n
            invariant
                i <= n,
                n == mime@.len(),
                slash == n || (slash < i && mime@[slash as int] == '/'),
                forall|j: int|
                    0 <= j < i && j != slash ==> valid_mime_char(#[trigger] mime@[j]),
            decreases n - i,
        {
            let c = mime.get_char(i);
            if c == '/' {
                if slash < n {
                    // a second slash: not a valid character for either half
                    proof {
                        assert forall|k: int|
                            !(0 < k < mime@.len() - 1 && mime@[k] == '/' && (forall|j: int|
                                0 <= j < mime@.len() && j != k ==> valid_mime_char(
                                    #[trigger] mime@[j],
                                ))) by {
                            if 0 < k < mime@.len() - 1 && mime@[k] == '/' {
                                if k != slash {
                                    assert(!valid_mime_char(mime@[slash as int]));
                                } else {
                                    assert(!valid_mime_char(mime@[i as int]));
                                }
                            }
                        }
                    }
                    return Err(ConfigError::InvalidMimeType(mime.to_owned()));
                }
                slash = i;
            } else if !(('a' <= c && c <= 'z') || ('A' <= c && c <= 'Z') || ('0' <= c && c <= '9')
                || c == '-' || c == '.' || c == '+') {
                proof {
                    assert forall|k: int|
                        !(0 < k < mime@.len() - 1 && mime@[k] == '/' && (forall|j: int|
                            0 <= j < mime@.len() && j != k ==> valid_mime_char(
                                #[trigger] mime@[j],
                            ))) by {
                        if 0 < k < mime@.len() - 1 && mime@[k] == '/' {
                            assert(k != i);
                            assert(!valid_mime_char(mime@[i as int]));
                        }
                    }
                }
                return Err(ConfigError::InvalidMimeType(mime.to_owned()));
            }
            i = i + 1;
        }
        if slash == n || slash == 0 || slash == n - 1 {
            proof {
                assert forall|k: int|
                    !(0 < k < mime@.len() - 1 && mime@[k] == '/' && (forall|j: int|
                        0 <= j < mime@.len() && j != k ==> valid_mime_char(#[trigger] mime@[j])))
                    by {
                    if 0 < k < mime@.len() - 1 && mime@[k] == '/' {
                        if slash == n {
                            assert(valid_mime_char(mime@[k]));
                        } else {
                            assert(k != slash);
                            assert(valid_mime_char(mime@[slash as int]));
                        }
                    }
                }
            }
            return Err(ConfigError::InvalidMimeType(mime.to_owned()));
        }
        proof {
            assert(0 < slash < mime@.len() - 1 && mime@[slash as int] == '/' && (forall|j: int|
                0 <= j < mime@.len() && j != slash ==> valid_mime_char(#[trigger] mime@[j])));
        }
        Ok(())
    }

    /// Checks that `app_id` is a non-empty name followed by `.desktop`.
    pub fn validate_app_id(app_id: &str) -> (r: Result<(), ConfigError>)
        ensures
            r is Ok <==> valid_app_id(app_id@),
            r is Err ==> r->Err_0 is InvalidAppId && r->Err_0->InvalidAppId_0@ == app_id@,
    {
        let n = app_id.unicode_len();
        if n <= 8 {
            return Err(ConfigError::InvalidAppId(app_id.to_owned()));
        }
        if app_id.get_char(n - 8) == '.' && app_id.get_char(n - 7) == 'd' && app_id.get_char(
            n - 6,
        ) == 'e' && app_id.get_char(n - 5) == 's' && app_id.get_char(n - 4) == 'k'
            && app_id.get_char(n - 3) == 't' && app_id.get_char(n - 2) == 'o' && app_id.get_char(
            n - 1,
        ) == 'p' {
            Ok(())
        } else {
            Err(ConfigError::InvalidAppId(app_id.to_owned()))
        }
    }

    /// The default application for `mime`, if one is configured.
    pub fn get_default(&self, mime: &str) -> (r: Option<&str>)
        ensures
            match r {
                Some(s) => default_of(self.default_apps.map_view(), mime@) == Some(s@),
                None => default_of(self.default_apps.map_view(), mime@) is None,
            },
    {
        match self.default_apps.get(mime) {
            Some(apps) => {
                if apps.len() > 0 {
                    proof {
                        assert(apps.deep_view()[0] == apps@[0]@);
                    }
                    Some(apps[0].as_str())
                } else {
                    None
                }
            },
            None => None,
        }
    }

    /// Removes the configured default for `mime`; nothing else changes.
    pub fn remove_default(&mut self, mime: &str)
        requires
            old(self).wf(),
        ensures
            final(self).wf(),
            final(self).default_apps.map_view() == old(self).default_apps.map_view().remove(mime@),
            final(self).added_associations == old(self).added_associations,
            final(self).removed_associations == old(self).removed_associations,
            final(self).path_view() == old(self).path_view(),
    {
        self.default_apps.remove(mime);
    }

    /// Makes `app_id` the sole default for `mime` and promotes it to the
    /// front of the added associations. Rejects malformed input unchanged.
    pub fn set_default(&mut self, mime: &str, app_id: &str) -> (r: Result<(), ConfigError>)
        requires
            old(self).wf(),
        ensures
            final(self).wf(),
            r is Ok <==> valid_mime(mime@) && valid_app_id(app_id@),
            final(self).path_view() == old(self).path_view(),
            final(self).removed_associations == old(self).removed_associations,
            r is Ok ==> final(self).default_apps.map_view()
                == old(self).default_apps.map_view().insert(mime@, seq![app_id@]),
            r is Ok ==> final(self).added_associations.map_view()
                == old(self).added_associations.map_view().insert(
                mime@,
                seq![app_id@] + remove_id(
                    list_or_empty(old(self).added_associations.map_view(), mime@),
                    app_id@,
                ),
            ),
            r is Err ==> final(self).default_apps == old(self).default_apps
                && final(self).added_associations == old(self).added_associations,
            r is Err ==> match r {
                Ok(_) => false,
                Err(ConfigError::InvalidMimeType(m)) => m@ == mime@ && !valid_mime(mime@),
                Err(ConfigError::InvalidAppId(a)) => a@ == app_id@ && valid_mime(mime@)
                    && !valid_app_id(app_id@),
            },
    {
        if let Err(e) = Self::validate_mime_type(mime) {
            return Err(e);
        }
        if let Err(e) = Self::validate_app_id(app_id) {
            return Err(e);
        }
        let mut single: Vec<String> = Vec::new();
        single.push(app_id.to_owned());
        proof {
            assert(single.deep_view() =~= seq![app_id@]);
        }
        self.default_apps.insert(mime.to_owned(), single);

        let mut promoted: Vec<String> = Vec::new();
        promoted.push(app_id.to_owned());
        let ghost old_list = list_or_empty(old(self).added_associations.map_view(), mime@);
        match self.added_associations.get(mime) {
            Some(existing) => {
                let mut i: usize = 0;
                let n = existing.len();
                proof {
                    assert(existing.deep_view() == old_list);
                    assert(promoted.deep_view() =~= seq![app_id@] + remove_id(
                        old_list.subrange(0, 0),
                        app_id@,
                    )) by {
                        assert(old_list.subrange(0, 0) =~= Seq::<Seq<char>>::empty());
                    }
                }
                while i < n
                    invariant
                        i <= n,
                        n == existing.deep_view().len(),
                        n == existing@.len(),
                        existing.deep_view() == old_list,
                        promoted.deep_view() == seq![app_id@] + remove_id(
                            old_list.subrange(0, i as int),
                            app_id@,
                        ),
                    decreases n - i,
                {
                    let ghost prefix = old_list.subrange(0, i as int);
                    let ghost next = old_list.subrange(0, i + 1);
                    let ghost el = old_list[i as int];
                    proof {
                        assert(next =~= prefix + seq![el]);
                        lemma_remove_id_concat(prefix, seq![el], app_id@);
                        lemma_remove_id_single(el, app_id@);
                        assert(existing.deep_view()[i as int] == existing@[i as int]@);
                    }
                    let ghost old_pd = promoted.deep_view();
                    if !str_eq(existing[i].as_str(), app_id) {
                        promoted.push(existing[i].clone());
                        proof {
                            assert(promoted.deep_view() =~~= old_pd.push(el));
                            assert(promoted.deep_view() =~~= seq![app_id@] + remove_id(
                                next,
                                app_id@,
                            ));
                        }
                    } else {
                        proof {
                            assert(remove_id(next, app_id@) =~= remove_id(prefix, app_id@));
                        }
                    }
                    i = i + 1;
                }
                proof {
                    assert(old_list.subrange(0, n as int) =~= old_list);
                }
            },
            None => {
                proof {
                    assert(promoted.deep_view() =~= seq![app_id@] + remove_id(
                        old_list,
                        app_id@,
                    )) by {
                        assert(old_list =~= Seq::<Seq<char>>::empty());
                    }
                }
            },
        }
        self.added_associations.insert(mime.to_owned(), promoted);
        Ok(())
    }

    /// Applies [`Self::set_default`] to each MIME type in order, stopping at
    /// the first rejected one; mutations already made stay in place.
    pub fn set_default_for_mimes(&mut self, mimes: &[&str], app_id: &str) -> (r: Result<
        (),
        ConfigError,
    >)
        requires
            old(self).wf(),
        ensures
            final(self).wf(),
            final(self).path_view() == old(self).path_view(),
            final(self).removed_associations == old(self).removed_associations,
            r is Ok <==> forall|i: int|
                0 <= i < mimes.deep_view().len() ==> valid_mime(#[trigger] mimes.deep_view()[i])
                    && valid_app_id(app_id@),
            r is Ok ==> updated_for(
                old(self).default_apps.map_view(),
                old(self).added_associations.map_view(),
                final(self).default_apps.map_view(),
                final(self).added_associations.map_view(),
                mimes.deep_view(),
                app_id@,
            ),
            r is Err ==> exists|i: int|
                0 <= i < mimes.deep_view().len() && !(valid_mime(#[trigger] mimes.deep_view()[i])
                    && valid_app_id(app_id@)) && (forall|j: int|
                    0 <= j < i ==> valid_mime(#[trigger] mimes.deep_view()[j]) && valid_app_id(
                        app_id@,
                    )) && updated_for(
                    old(self).default_apps.map_view(),
                    old(self).added_associations.map_view(),
                    final(self).default_apps.map_view(),
                    final(self).added_associations.map_view(),
                    mimes.deep_view().subrange(0, i),
                    app_id@,
                ),
    {
        let ghost all = mimes.deep_view();
        let mut i: usize = 0;
        let n = mimes.len();
        proof {
            assert(all.subrange(0, 0) =~= Seq::<Seq<char>>::empty());
        }
        while i < n
            invariant
                i <= n,
                n == all.len(),
                all == mimes.deep_view(),
                self.wf(),
                self.path_view() == old(self).path_view(),
                self.removed_associations == old(self).removed_associations,
                forall|j: int|
                    0 <= j < i ==> valid_mime(#[trigger] all[j]) && valid_app_id(app_id@),
                updated_for(
                    old(self).default_apps.map_view(),
                    old(self).added_associations.map_view(),
                    self.default_apps.map_view(),
                    self.added_associations.map_view(),
                    all.subrange(0, i as int),
                    app_id@,
                ),
            decreases n - i,
        {
            proof {
                assert(all[i as int] == mimes.deep_view()[i as int]);
            }
            let ghost before_d = self.default_apps.map_view();
            let ghost before_a = self.added_associations.map_view();
            let r = self.set_default(mimes[i], app_id);
            if let Err(e) = r {
                proof {
                    let ghost w = i as int;
                    assert(0 <= w < mimes.deep_view().len() && !(valid_mime(mimes.deep_view()[w])
                        && valid_app_id(app_id@)) && (forall|j: int|
                        0 <= j < w ==> valid_mime(#[trigger] mimes.deep_view()[j]) && valid_app_id(
                            app_id@,
                        )) && updated_for(
                        old(self).default_apps.map_view(),
                        old(self).added_associations.map_view(),
                        self.default_apps.map_view(),
                        self.added_associations.map_view(),
                        mimes.deep_view().subrange(0, w),
                        app_id@,
                    ));
                }
                return Err(e);
            }
            i = i + 1;
            proof {
                lemma_updated_for_step(
                    old(self).default_apps.map_view(),
                    old(self).added_associations.map_view(),
                    before_d,
                    before_a,
                    self.default_apps.map_view(),
                    self.added_associations.map_view(),
                    all,
                    i as int,
                    app_id@,
                );
            }
        }
        proof {
            assert(all.subrange(0, n as int) =~= all);
        }
        Ok(())
    }

    /// The ids associated with `mime`: the default entries in their stored
    /// order, then added entries not already listed, with every removed id
    /// filtered out.
    pub fn get_associations(&self, mime: &str) -> (r: Vec<&str>)
        ensures
            r.deep_view() == associations_of(
                self.default_apps.map_view(),
                self.added_associations.map_view(),
                self.removed_associations.map_view(),
                mime@,
            ),
    {
        let ghost dl = list_or_empty(self.default_apps.map_view(), mime@);
        let ghost al = list_or_empty(self.added_associations.map_view(), mime@);
        let ghost rl = list_or_empty(self.removed_associations.map_view(), mime@);
        let mut combined: Vec<&str> = Vec::new();
        proof {
            assert((dl + al).subrange(0, 0) =~= Seq::<Seq<char>>::empty());
            assert(combined.deep_view() =~= Seq::<Seq<char>>::empty());
        }
        match self.default_apps.get(mime) {
            Some(defaults) => {
                push_missing(&mut combined, defaults, Ghost(dl + al), Ghost(0));
            },
            None => {
                proof {
                    assert(dl =~= Seq::<Seq<char>>::empty());
                }
            },
        }
        match self.added_associations.get(mime) {
            Some(added) => {
                proof {
                    assert((dl + al).subrange(0, dl.len() as int) =~= dl);
                }
                push_missing(&mut combined, added, Ghost(dl + al), Ghost(dl.len() as int));
            },
            None => {
                proof {
                    assert(al =~= Seq::<Seq<char>>::empty());
                }
            },
        }
        proof {
            assert((dl + al).subrange(0, (dl + al).len() as int) =~= dl + al);
            assert(combined.deep_view() == dedup_first(dl + al));
        }
        let mut r: Vec<&str> = Vec::new();
        let removed = self.removed_associations.get(mime);
        let ghost cd = combined.deep_view();
        let mut i: usize = 0;
        proof {
            assert(r.deep_view() =~= Seq::<Seq<char>>::empty());
            assert(cd.subrange(0, 0) =~= Seq::<Seq<char>>::empty());
        }
        while i < combined.len()
            invariant
                i <= combined@.len(),
                cd == combined.deep_view(),
                cd.len() == combined@.len(),
                match removed {
                    Some(v) => v.deep_view() == rl,
                    None => rl == Seq::<Seq<char>>::empty(),
                },
                rl == list_or_empty(self.removed_associations.map_view(), mime@),
                r.deep_view() == minus_listed(cd.subrange(0, i as int), rl),
            decreases combined@.len() - i,
        {
            let keep = match removed {
                Some(rv) => !contains_str(rv, combined[i]),
                None => true,
            };
            let ghost prefix = cd.subrange(0, i as int);
            let ghost next = cd.subrange(0, i + 1);
            let ghost el = cd[i as int];
            proof {
                assert(next =~= prefix + seq![el]);
                lemma_minus_listed_concat(prefix, seq![el], rl);
                lemma_minus_listed_single(el, rl);
                assert(combined.deep_view()[i as int] == combined@[i as int]@);
                assert(keep == !rl.contains(el));
            }
            let ghost old_rd = r.deep_view();
            if keep {
                r.push(combined[i]);
                proof {
                    assert(r.deep_view() =~~= old_rd.push(el));
                    assert(r.deep_view() =~~= minus_listed(next, rl));
                }
            } else {
                proof {
                    assert(minus_listed(next, rl) =~= minus_listed(prefix, rl));
                }
            }
            i = i + 1;
        }
        proof {
            assert(cd.subrange(0, cd.len() as int) =~= cd);
        }
        r
    }

    /// Merges one parsed source into this store, the source taking
    /// priority: its default entries replace per key, its added and removed
    /// entries are unioned per key onto the existing lists.
    pub fn merge_from(&mut self, other: ParsedMimeApps)
        requires
            old(self).wf(),
            other.wf(),
        ensures
            final(self).wf(),
            final(self).path_view() == old(self).path_view(),
            final(self).default_apps.map_view() == old(self).default_apps.map_view()
                .union_prefer_right(other.default_apps.map_view()),
            final(self).added_associations.map_view() == union_merge(
                old(self).added_associations.map_view(),
                other.added_associations.map_view(),
            ),
            final(self).removed_associations.map_view() == union_merge(
                old(self).removed_associations.map_view(),
                other.removed_associations.map_view(),
            ),
    {
        let ghost od = old(self).default_apps.map_view();
        let ghost dv = other.default_apps@;
        let n = other.default_apps.len();
        let mut i: usize = 0;
        proof {
            assert(dv.subrange(0, 0) =~= Seq::<(Seq<char>, Seq<Seq<char>>)>::empty());
            assert(self.default_apps.map_view() =~= od.union_prefer_right(
                as_map(dv.subrange(0, 0)),
            ));
        }
        while i < n
            invariant
                i <= n,
                n == dv.len(),
                dv == other.default_apps@,
                distinct_keys(dv),
                self.wf(),
                self.path_view() == old(self).path_view(),
                self.added_associations == old(self).added_associations,
                self.removed_associations == old(self).removed_associations,
                self.default_apps.map_view() == od.union_prefer_right(
                    as_map(dv.subrange(0, i as int)),
                ),
            decreases n - i,
        {
            let k = other.default_apps.key_at(i).clone();
            let v = clone_strings(other.default_apps.list_at(i));
            proof {
                lemma_as_map_take_step(dv, i as int);
                lemma_union_right_step(od, as_map(dv.subrange(0, i as int)), dv[i as int].0, dv[i as int].1);
            }
            self.default_apps.insert(k, v);
            i = i + 1;
        }
        proof {
            assert(dv.subrange(0, n as int) =~= dv);
        }

        let ghost oa = old(self).added_associations.map_view();
        let ghost av = other.added_associations@;
        let m = other.added_associations.len();
        let mut j: usize = 0;
        proof {
            assert(av.subrange(0, 0) =~= Seq::<(Seq<char>, Seq<Seq<char>>)>::empty());
            assert(self.added_associations.map_view() =~= union_merge(
                oa,
                as_map(av.subrange(0, 0)),
            ));
        }
        while j < m
            invariant
                j <= m,
                m == av.len(),
                av == other.added_associations@,
                distinct_keys(av),
                self.wf(),
                self.path_view() == old(self).path_view(),
                self.removed_associations == old(self).removed_associations,
                self.default_apps.map_view() == od.union_prefer_right(
                    as_map(dv),
                ),
                dv == other.default_apps@,
                self.added_associations.map_view() == union_merge(
                    oa,
                    as_map(av.subrange(0, j as int)),
                ),
            decreases m - j,
        {
            let k = other.added_associations.key_at(j).clone();
            let incoming = other.added_associations.list_at(j);
            proof {
                lemma_as_map_take_step(av, j as int);
            }
            let ghost curmap = self.added_associations.map_view();
            let merged: Vec<String> = match self.added_associations.get(k.as_str()) {
                Some(existing) => union_into(existing, incoming),
                None => {
                    let fresh: Vec<String> = Vec::new();
                    proof {
                        assert(list_or_empty(curmap, k@) =~= Seq::<Seq<char>>::empty());
                        assert(fresh.deep_view() =~= list_or_empty(curmap, k@));
                    }
                    union_into(&fresh, incoming)
                },
            };
            proof {
                assert(list_or_empty(curmap, k@) == list_or_empty(oa, k@)) by {
                    if oa.contains_key(k@) {
                        lemma_list_union_empty(oa[k@]);
                    }
                }
                lemma_union_merge_step(oa, as_map(av.subrange(0, j as int)), av[j as int].0, av[j as int].1);
            }
            self.added_associations.insert(k, merged);
            j = j + 1;
        }
        proof {
            assert(av.subrange(0, m as int) =~= av);
        }

        let ghost orm = old(self).removed_associations.map_view();
        let ghost rv = other.removed_associations@;
        let p = other.removed_associations.len();
        let mut q: usize = 0;
        proof {
            assert(rv.subrange(0, 0) =~= Seq::<(Seq<char>, Seq<Seq<char>>)>::empty());
            assert(self.removed_associations.map_view() =~= union_merge(
                orm,
                as_map(rv.subrange(0, 0)),
            ));
        }
        while q < p
            invariant
                q <= p,
                p == rv.len(),
                rv == other.removed_associations@,
                distinct_keys(rv),
                self.wf(),
                self.path_view() == old(self).path_view(),
                self.default_apps.map_view() == od.union_prefer_right(as_map(dv)),
                dv == other.default_apps@,
                self.added_associations.map_view() == union_merge(oa, as_map(av)),
                av == other.added_associations@,
                self.removed_associations.map_view() == union_merge(
                    orm,
                    as_map(rv.subrange(0, q as int)),
                ),
            decreases p - q,
        {
            let k = other.removed_associations.key_at(q).clone();
            let incoming = other.removed_associations.list_at(q);
            proof {
                lemma_as_map_take_step(rv, q as int);
            }
            let ghost curmap = self.removed_associations.map_view();
            let merged: Vec<String> = match self.removed_associations.get(k.as_str()) {
                Some(existing) => union_into(existing, incoming),
                None => {
                    let fresh: Vec<String> = Vec::new();
                    proof {
                        assert(list_or_empty(curmap, k@) =~= Seq::<Seq<char>>::empty());
                        assert(fresh.deep_view() =~= list_or_empty(curmap, k@));
                    }
                    union_into(&fresh, incoming)
                },
            };
            proof {
                assert(list_or_empty(curmap, k@) == list_or_empty(orm, k@)) by {
                    if orm.contains_key(k@) {
                        lemma_list_union_empty(orm[k@]);
                    }
                }
                lemma_union_merge_step(orm, as_map(rv.subrange(0, q as int)), rv[q as int].0, rv[q as int].1);
            }
            self.removed_associations.insert(k, merged);
            q = q + 1;
        }
        proof {
            assert(rv.subrange(0, p as int) =~= rv);
        }
    }
}

/// Whether any element of `v` equals `s`.
fn contains_str(v: &Vec<String>, s: &str) -> (r: bool)
    ensures
        r == v.deep_view().contains(s@),
{
    let mut i: usize = 0;
    while i < v.len()
        invariant
            i <= v@.len(),
            forall|j: int| 0 <= j < i ==> v.deep_view()[j] != s@,
        decreases v@.len() - i,
    {
        proof {
            assert(v.deep_view()[i as int] == v@[i as int]@);
        }
        if str_eq(v[i].as_str(), s) {
            proof {
                assert(v.deep_view()[i as int] == s@);
            }
            return true;
        }
        i = i + 1;
    }
    proof {
        assert(forall|j: int| 0 <= j < v.deep_view().len() ==> v.deep_view()[j] != s@);
    }
    false
}

/// Whether any element of `v` equals `s`.
fn contains_ref(v: &Vec<&str>, s: &str) -> (r: bool)
    ensures
        r == v.deep_view().contains(s@),
{
    let mut i: usize = 0;
    while i < v.len()
        invariant
            i <= v@.len(),
            forall|j: int| 0 <= j < i ==> v.deep_view()[j] != s@,
        decreases v@.len() - i,
    {
        proof {
            assert(v.deep_view()[i as int] == v@[i as int]@);
        }
        if str_eq(v[i], s) {
            proof {
                assert(v.deep_view()[i as int] == s@);
            }
            return true;
        }
        i = i + 1;
    }
    proof {
        assert(forall|j: int| 0 <= j < v.deep_view().len() ==> v.deep_view()[j] != s@);
    }
    false
}

/// Appends the elements of `src` that `dst` does not yet hold, in order.
/// `dst` must so far be the first-occurrence dedup of `whole.subrange(0, from)`,
/// and `src` the next stretch of `whole`; afterwards it is the dedup of the
/// stretch up to `from + src.len()`.
pub(crate) fn push_missing<'a>(
    dst: &mut Vec<&'a str>,
    src: &'a Vec<String>,
    Ghost(whole): Ghost<Seq<Seq<char>>>,
    Ghost(from): Ghost<int>,
)
    requires
        0 <= from,
        from + src.deep_view().len() <= whole.len(),
        forall|j: int| 0 <= j < src.deep_view().len() ==> whole[from + j] == src.deep_view()[j],
        old(dst).deep_view() == dedup_first(whole.subrange(0, from)),
    ensures
        final(dst).deep_view() == dedup_first(whole.subrange(0, from + src.deep_view().len())),
{
    let mut i: usize = 0;
    let n = src.len();
    proof {
        assert(src.deep_view().len() == src@.len());
    }
    while i < n
        invariant
            i <= n,
            n == src@.len(),
            n == src.deep_view().len(),
            0 <= from,
            from + n <= whole.len(),
            forall|j: int| 0 <= j < n ==> whole[from + j] == src.deep_view()[j],
            dst.deep_view() == dedup_first(whole.subrange(0, from + i)),
        decreases n - i,
    {
        let ghost prefix = whole.subrange(0, from + i);
        let ghost next = whole.subrange(0, from + i + 1);
        proof {
            assert(next.drop_last() =~= prefix);
            assert(next.last() == whole[from + i]);
            assert(src.deep_view()[i as int] == src@[i as int]@);
        }
        let ghost old_dd = dst.deep_view();
        if !contains_ref(dst, src[i].as_str()) {
            dst.push(src[i].as_str());
            proof {
                assert(dst.deep_view() =~~= old_dd.push(src.deep_view()[i as int]));
            }
        }
        i = i + 1;
    }
}

/// After setting one id as the default for every key in `keys`: each listed
/// key maps to exactly that id (and heads its added list, the remainder
/// keeping its old order without the id), every other key is untouched.
pub open spec fn updated_for(
    old_d: Map<Seq<char>, Seq<Seq<char>>>,
    old_a: Map<Seq<char>, Seq<Seq<char>>>,
    new_d: Map<Seq<char>, Seq<Seq<char>>>,
    new_a: Map<Seq<char>, Seq<Seq<char>>>,
    keys: Seq<Seq<char>>,
    id: Seq<char>,
) -> bool {
    &&& forall|k: Seq<char>|
        keys.contains(k) ==> #[trigger] new_d.contains_key(k) && new_d[k] == seq![id]
    &&& forall|k: Seq<char>|
        keys.contains(k) ==> #[trigger] new_a.contains_key(k) && new_a[k] == seq![id]
            + remove_id(list_or_empty(old_a, k), id)
    &&& forall|k: Seq<char>|
        !keys.contains(k) ==> (#[trigger] new_d.contains_key(k) == old_d.contains_key(k) && (
        old_d.contains_key(k) ==> new_d[k] == old_d[k]))
    &&& forall|k: Seq<char>|
        !keys.contains(k) ==> (#[trigger] new_a.contains_key(k) == old_a.contains_key(k) && (
        old_a.contains_key(k) ==> new_a[k] == old_a[k]))
}

/// One further [`MimeAppsConfig::set_default`] extends [`updated_for`] from a
/// prefix of the keys to the next longer prefix.
#[verifier::rlimit(50)]
proof fn lemma_updated_for_step(
    old_d: Map<Seq<char>, Seq<Seq<char>>>,
    old_a: Map<Seq<char>, Seq<Seq<char>>>,
    mid_d: Map<Seq<char>, Seq<Seq<char>>>,
    mid_a: Map<Seq<char>, Seq<Seq<char>>>,
    new_d: Map<Seq<char>, Seq<Seq<char>>>,
    new_a: Map<Seq<char>, Seq<Seq<char>>>,
    keys: Seq<Seq<char>>,
    i: int,
    id: Seq<char>,
)
    requires
        0 < i <= keys.len(),
        updated_for(old_d, old_a, mid_d, mid_a, keys.subrange(0, i - 1), id),
        new_d == mid_d.insert(keys[i - 1], seq![id]),
        new_a == mid_a.insert(
            keys[i - 1],
            seq![id] + remove_id(list_or_empty(mid_a, keys[i - 1]), id),
        ),
    ensures
        updated_for(old_d, old_a, new_d, new_a, keys.subrange(0, i), id),
{
    let prev = keys.subrange(0, i - 1);
    let cur = keys.subrange(0, i);
    let k0 = keys[i - 1];
    assert(cur.drop_last() =~= prev);
    assert forall|k: Seq<char>| cur.contains(k) implies #[trigger] new_a.contains_key(k) && new_a[k]
        == seq![id] + remove_id(list_or_empty(old_a, k), id) by {
        if k == k0 {
            if prev.contains(k0) {
                let old_part = remove_id(list_or_empty(old_a, k0), id);
                assert(list_or_empty(mid_a, k0) == seq![id] + old_part);
                assert(remove_id(seq![id] + old_part, id) =~= old_part) by {
                    lemma_remove_id_concat(seq![id], old_part, id);
                    lemma_remove_id_single(id, id);
                    lemma_remove_id_clean(list_or_empty(old_a, k0), id);
                    lemma_remove_id_of_clean(old_part, id);
                }
            } else {
                assert(list_or_empty(mid_a, k0) == list_or_empty(old_a, k0));
            }
        } else {
            let j = choose|j: int| 0 <= j < cur.len() && cur[j] == k;
            assert(prev[j] == k);
            assert(prev.contains(k));
            assert(mid_a.contains_key(k));
            assert(mid_a[k] == seq![id] + remove_id(list_or_empty(old_a, k), id));
        }
        assert(new_a.contains_key(k));
        assert(new_a[k] == seq![id] + remove_id(list_or_empty(old_a, k), id));
    }
    assert forall|k: Seq<char>| cur.contains(k) implies #[trigger] new_d.contains_key(k) && new_d[k]
        == seq![id] by {
        if k != k0 {
            let j = choose|j: int| 0 <= j < cur.len() && cur[j] == k;
            assert(prev[j] == k);
            assert(prev.contains(k));
        }
    }
    assert forall|k: Seq<char>| !cur.contains(k) implies (#[trigger] new_d.contains_key(k)
        == old_d.contains_key(k) && (old_d.contains_key(k) ==> new_d[k] == old_d[k])) by {
        assert(!prev.contains(k)) by {
            if prev.contains(k) {
                let j = choose|j: int| 0 <= j < prev.len() && prev[j] == k;
                assert(cur[j] == k);
            }
        }
        assert(k != k0) by {
            assert(cur[i - 1] == k0);
        }
    }
    assert forall|k: Seq<char>| !cur.contains(k) implies (#[trigger] new_a.contains_key(k)
        == old_a.contains_key(k) && (old_a.contains_key(k) ==> new_a[k] == old_a[k])) by {
        assert(!prev.contains(k)) by {
            if prev.contains(k) {
                let j = choose|j: int| 0 <= j < prev.len() && prev[j] == k;
                assert(cur[j] == k);
            }
        }
        assert(k != k0) by {
            assert(cur[i - 1] == k0);
        }
    }
}

/// `a` extended with the elements of `b` it does not yet hold.
fn union_into(a: &Vec<String>, b: &Vec<String>) -> (r: Vec<String>)
    ensures
        r.deep_view() == list_union(a.deep_view(), b.deep_view()),
{
    let mut acc = clone_strings(a);
    let bn = b.len();
    let mut j: usize = 0;
    proof {
        assert(b.deep_view().subrange(0, b.deep_view().len() as int) =~= b.deep_view());
    }
    while j < bn
        invariant
            j <= bn,
            bn == b@.len(),
            bn == b.deep_view().len(),
            list_union(a.deep_view(), b.deep_view()) == list_union(
                acc.deep_view(),
                b.deep_view().subrange(j as int, bn as int),
            ),
        decreases bn - j,
    {
        let ghost rest = b.deep_view().subrange(j as int, bn as int);
        proof {
            assert(rest[0] == b.deep_view()[j as int]);
            assert(rest.drop_first() =~= b.deep_view().subrange(j + 1, bn as int));
            assert(b.deep_view()[j as int] == b@[j as int]@);
        }
        let ghost old_acc = acc.deep_view();
        if !contains_str(&acc, b[j].as_str()) {
            acc.push(b[j].clone());
            proof {
                assert(acc.deep_view() =~~= old_acc.push(b.deep_view()[j as int]));
            }
        }
        j = j + 1;
    }
    proof {
        assert(b.deep_view().subrange(bn as int, bn as int) =~= Seq::<Seq<char>>::empty());
        lemma_list_union_empty(acc.deep_view());
    }
    acc
}

/// The three mappings a store holds, as one value for specifications.
pub ghost struct StoreModel {
    pub defaults: Map<Seq<char>, Seq<Seq<char>>>,
    pub added: Map<Seq<char>, Seq<Seq<char>>>,
    pub removed: Map<Seq<char>, Seq<Seq<char>>>,
}

/// A store with nothing configured.
pub open spec fn empty_model() -> StoreModel {
    StoreModel { defaults: Map::empty(), added: Map::empty(), removed: Map::empty() }
}

/// A higher-priority source merged onto an accumulated store: its defaults
/// replace per MIME type, its added and removed lists are unioned per
/// MIME type.
pub open spec fn merge_models(acc: StoreModel, src: StoreModel) -> StoreModel {
    StoreModel {
        defaults: acc.defaults.union_prefer_right(src.defaults),
        added: union_merge(acc.added, src.added),
        removed: union_merge(acc.removed, src.removed),
    }
}

/// The mappings one source file's text denotes.
pub open spec fn source_model(content: Seq<char>) -> StoreModel {
    StoreModel {
        defaults: parse_model(content).defaults,
        added: parse_model(content).added,
        removed: parse_model(content).removed,
    }
}

/// The merged store of a priority-ordered list of sources, highest first:
/// the lowest-priority source is merged first, so each higher one
/// overrides in turn.
pub open spec fn load_model(srcs: Seq<Seq<char>>) -> StoreModel
    decreases srcs.len(),
{
    if srcs.len() == 0 {
        empty_model()
    } else {
        merge_models(load_model(srcs.drop_first()), source_model(srcs[0]))
    }
}

impl MimeAppsConfig {
    /// Builds the merged store from the contents of every association-list
    /// source, given highest priority first, writing back to `write_path`.
    /// An unreadable source is simply passed as an empty string by the
    /// caller: it contributes nothing.
    pub fn load_from_sources(sources: &Vec<String>, write_path: String) -> (r: MimeAppsConfig)
        ensures
            r.wf(),
            r.path_view() == write_path@,
            r.default_apps.map_view() == load_model(sources.deep_view()).defaults,
            r.added_associations.map_view() == load_model(sources.deep_view()).added,
            r.removed_associations.map_view() == load_model(sources.deep_view()).removed,
    {
        let ghost sv = sources.deep_view();
        let mut store = MimeAppsConfig::empty(write_path);
        let n = sources.len();
        let mut idx = n;
        proof {
            assert(sv.subrange(n as int, n as int) =~= Seq::<Seq<char>>::empty());
        }
        while idx > 0
            invariant
                idx <= n,
                n == sources@.len(),
                sv == sources.deep_view(),
                sv.len() == n,
                store.wf(),
                store.path_view() == write_path@,
                store.default_apps.map_view() == load_model(
                    sv.subrange(idx as int, n as int),
                ).defaults,
                store.added_associations.map_view() == load_model(
                    sv.subrange(idx as int, n as int),
                ).added,
                store.removed_associations.map_view() == load_model(
                    sv.subrange(idx as int, n as int),
                ).removed,
            decreases idx,
        {
            idx = idx - 1;
            let parsed = ParsedMimeApps::parse(sources[idx].as_str());
            proof {
                assert(sources.deep_view()[idx as int] == sources@[idx as int]@);
                let rest = sv.subrange(idx as int, n as int);
                assert(rest[0] == sv[idx as int]);
                assert(rest.drop_first() =~= sv.subrange(idx + 1, n as int));
            }
            store.merge_from(parsed);
        }
        proof {
            assert(sv.subrange(0, n as int) =~= sv);
        }
        store
    }
}

/// Membership in a list union: exactly the elements of either side.
pub proof fn lemma_list_union_contains(a: Seq<Seq<char>>, b: Seq<Seq<char>>)
    ensures
        forall|x: Seq<char>|
            #[trigger] list_union(a, b).contains(x) == (a.contains(x) || b.contains(x)),
    decreases b.len(),
{
    if b.len() > 0 {
        let a2: Seq<Seq<char>> = if a.contains(b[0]) {
            a
        } else {
            a.push(b[0])
        };
        lemma_list_union_contains(a2, b.drop_first());
        assert forall|x: Seq<char>| #[trigger] list_union(a, b).contains(x) == (a.contains(x)
            || b.contains(x)) by {
            assert(list_union(a, b) == list_union(a2, b.drop_first()));
            assert(a2.contains(x) == (a.contains(x) || x == b[0])) by {
                if a.contains(x) {
                    let w = choose|w: int| 0 <= w < a.len() && a[w] == x;
                    assert(a2[w] == x);
                }
                if a2.contains(x) {
                    let w = choose|w: int| 0 <= w < a2.len() && a2[w] == x;
                    if !a.contains(b[0]) && w == a.len() {
                        assert(x == b[0]);
                    } else {
                        assert(a[w] == x);
                    }
                }
                if x == b[0] && !a.contains(b[0]) {
                    assert(a2[a.len() as int] == x);
                    assert(a2.contains(x));
                }
            }
            assert(b.contains(x) == (x == b[0] || b.drop_first().contains(x))) by {
                if b.contains(x) {
                    let w = choose|w: int| 0 <= w < b.len() && b[w] == x;
                    if w > 0 {
                        assert(b.drop_first()[w - 1] == x);
                    }
                }
                if b.drop_first().contains(x) {
                    let w = choose|w: int|
                        0 <= w < b.drop_first().len() && b.drop_first()[w] == x;
                    assert(b[w + 1] == x);
                }
                if x == b[0] {
                    assert(b[0] == x);
                }
            }
        }
    }
}

/// A union onto an empty list keeps a duplicate-free list unchanged.
pub proof fn lemma_list_union_of_unique(a: Seq<Seq<char>>, b: Seq<Seq<char>>)
    requires
        forall|i: int, j: int| 0 <= i < j < b.len() ==> b[i] != b[j],
        forall|i: int| 0 <= i < b.len() ==> !a.contains(#[trigger] b[i]),
    ensures
        list_union(a, b) == a + b,
    decreases b.len(),
{
    if b.len() == 0 {
        assert(a + b =~= a);
    } else {
        assert(!a.contains(b[0]));
        let a2 = a.push(b[0]);
        assert(forall|i: int|
            0 <= i < b.drop_first().len() ==> (#[trigger] b.drop_first()[i]) == b[i + 1]);
        assert forall|i: int| 0 <= i < b.drop_first().len() implies !a2.contains(
            #[trigger] b.drop_first()[i],
        ) by {
            if a2.contains(b.drop_first()[i]) {
                let w = choose|w: int| 0 <= w < a2.len() && a2[w] == b.drop_first()[i];
                if w == a.len() {
                    assert(b[0] == b[i + 1]);
                } else {
                    assert(a[w] == b[i + 1]);
                }
            }
        }
        lemma_list_union_of_unique(a2, b.drop_first());
        assert(a2 + b.drop_first() =~= a + b);
    }
}

/// After a default is set, the same MIME type resolves to exactly that id.
/// This is what a successful `set_default` followed by `get_default` shows.
pub proof fn lemma_set_then_get(
    d: Map<Seq<char>, Seq<Seq<char>>>,
    mime: Seq<char>,
    id: Seq<char>,
)
    ensures
        default_of(d.insert(mime, seq![id]), mime) == Some(id),
{
}

/// A higher-priority source's default for a MIME type wins outright over
/// whatever any lower-priority merge produced for it.
pub proof fn lemma_default_priority(
    acc: StoreModel,
    lo: StoreModel,
    hi: StoreModel,
    mime: Seq<char>,
)
    requires
        hi.defaults.contains_key(mime),
    ensures
        merge_models(merge_models(acc, lo), hi).defaults.contains_key(mime),
        merge_models(merge_models(acc, lo), hi).defaults[mime] == hi.defaults[mime],
{
}

/// Added and removed associations merge as order-independent unions per
/// MIME type: merging two sources in either order keys the same MIME types
/// and holds the same ids under each, though the stored order may differ.
pub proof fn lemma_union_merge_order(
    acc: Map<Seq<char>, Seq<Seq<char>>>,
    m1: Map<Seq<char>, Seq<Seq<char>>>,
    m2: Map<Seq<char>, Seq<Seq<char>>>,
    k: Seq<char>,
)
    ensures
        union_merge(union_merge(acc, m1), m2).contains_key(k) == union_merge(
            union_merge(acc, m2),
            m1,
        ).contains_key(k),
        union_merge(union_merge(acc, m1), m2).contains_key(k) ==> forall|x: Seq<char>|
            #[trigger] union_merge(union_merge(acc, m1), m2)[k].contains(x) == union_merge(
                union_merge(acc, m2),
                m1,
            )[k].contains(x),
{
    let one = union_merge(union_merge(acc, m1), m2);
    let two = union_merge(union_merge(acc, m2), m1);
    if one.contains_key(k) {
        lemma_list_union_contains(list_or_empty(union_merge(acc, m1), k), list_or_empty(m2, k));
        lemma_list_union_contains(list_or_empty(acc, k), list_or_empty(m1, k));
        lemma_list_union_contains(list_or_empty(union_merge(acc, m2), k), list_or_empty(m1, k));
        lemma_list_union_contains(list_or_empty(acc, k), list_or_empty(m2, k));
        assert forall|x: Seq<char>| #[trigger] one[k].contains(x) == two[k].contains(x) by {
            assert(one[k].contains(x) == (list_or_empty(acc, k).contains(x) || list_or_empty(
                m1,
                k,
            ).contains(x) || list_or_empty(m2, k).contains(x)));
            assert(two[k].contains(x) == (list_or_empty(acc, k).contains(x) || list_or_empty(
                m2,
                k,
            ).contains(x) || list_or_empty(m1, k).contains(x)));
        }
    }
}

/// Whether every id list of the mapping is free of duplicates.
pub open spec fn lists_unique(m: crate::listmap::EntrySeq) -> bool {
    forall|i: int|
        0 <= i < m.len() ==> (forall|a: int, b: int|
            0 <= a < b < (#[trigger] m[i]).1.len() ==> m[i].1[a] != m[i].1[b])
}

/// Loading a single source reproduces exactly the mappings that source
/// parses to, provided its added and removed lists hold no duplicate ids.
/// Together with the contract of `serialize`, this is the round trip: a
/// saved store, loaded back as the only source, is the same store.
pub proof fn lemma_load_single_source(content: Seq<char>)
    requires
        forall|k: Seq<char>|
            #[trigger] crate::assoc_format::parse_model(content).added.contains_key(k)
                ==> (forall|a: int, b: int|
                0 <= a < b < crate::assoc_format::parse_model(content).added[k].len()
                    ==> crate::assoc_format::parse_model(content).added[k][a]
                    != crate::assoc_format::parse_model(content).added[k][b]),
        forall|k: Seq<char>|
            #[trigger] crate::assoc_format::parse_model(content).removed.contains_key(k)
                ==> (forall|a: int, b: int|
                0 <= a < b < crate::assoc_format::parse_model(content).removed[k].len()
                    ==> crate::assoc_format::parse_model(content).removed[k][a]
                    != crate::assoc_format::parse_model(content).removed[k][b]),
    ensures
        load_model(seq![content]).defaults == crate::assoc_format::parse_model(content).defaults,
        load_model(seq![content]).added == crate::assoc_format::parse_model(content).added,
        load_model(seq![content]).removed == crate::assoc_format::parse_model(content).removed,
{
    let parsed = source_model(content);
    reveal_with_fuel(load_model, 2);
    assert(seq![content].drop_first() =~= Seq::<Seq<char>>::empty());
    assert(seq![content][0] == content);
    assert(load_model(seq![content]) == merge_models(empty_model(), parsed));
    assert(empty_model().defaults.union_prefer_right(parsed.defaults) =~= parsed.defaults);
    assert(union_merge(empty_model().added, parsed.added) =~= parsed.added) by {
        assert forall|k: Seq<char>|
            union_merge(empty_model().added, parsed.added).contains_key(k) implies union_merge(
            empty_model().added,
            parsed.added,
        )[k] == parsed.added[k] by {
            assert(list_or_empty(empty_model().added, k) =~= Seq::<Seq<char>>::empty());
            lemma_list_union_of_unique(
                Seq::<Seq<char>>::empty(),
                list_or_empty(parsed.added, k),
            );
            assert(Seq::<Seq<char>>::empty() + list_or_empty(parsed.added, k) =~= list_or_empty(
                parsed.added,
                k,
            ));
        }
    }
    assert(union_merge(empty_model().removed, parsed.removed) =~= parsed.removed) by {
        assert forall|k: Seq<char>|
            union_merge(empty_model().removed, parsed.removed).contains_key(k) implies union_merge(
            empty_model().removed,
            parsed.removed,
        )[k] == parsed.removed[k] by {
            assert(list_or_empty(empty_model().removed, k) =~= Seq::<Seq<char>>::empty());
            lemma_list_union_of_unique(
                Seq::<Seq<char>>::empty(),
                list_or_empty(parsed.removed, k),
            );
            assert(Seq::<Seq<char>>::empty() + list_or_empty(parsed.removed, k) =~= list_or_empty(
                parsed.removed,
                k,
            ));
        }
    }
}


/// The save/load round trip in one statement, over the store itself: a
/// well-formed clean store whose added and removed lists hold no duplicate
/// ids, serialised to any text that parses back to its mappings (which the
/// contract of `serialize` provides), is reproduced exactly by a fresh
/// load of only that text.
pub proof fn lemma_save_load_round_trip(s: &MimeAppsConfig, text: Seq<char>)
    requires
        s.wf(),
        lists_unique(s.added_associations@),
        lists_unique(s.removed_associations@),
        crate::assoc_format::parse_model(text).defaults == s.default_apps.map_view(),
        crate::assoc_format::parse_model(text).added == s.added_associations.map_view(),
        crate::assoc_format::parse_model(text).removed == s.removed_associations.map_view(),
    ensures
        load_model(seq![text]).defaults == s.default_apps.map_view(),
        load_model(seq![text]).added == s.added_associations.map_view(),
        load_model(seq![text]).removed == s.removed_associations.map_view(),
{
    assert forall|k: Seq<char>|
        #[trigger] crate::assoc_format::parse_model(text).added.contains_key(k) implies (
    forall|a: int, b: int|
        0 <= a < b < crate::assoc_format::parse_model(text).added[k].len()
            ==> crate::assoc_format::parse_model(text).added[k][a]
            != crate::assoc_format::parse_model(text).added[k][b]) by {
        let entries = s.added_associations@;
        crate::listmap::lemma_key_index(entries, k);
        let i = crate::listmap::key_index(entries, k);
        assert(crate::assoc_format::parse_model(text).added[k] == entries[i].1);
    }
    assert forall|k: Seq<char>|
        #[trigger] crate::assoc_format::parse_model(text).removed.contains_key(k) implies (
    forall|a: int, b: int|
        0 <= a < b < crate::assoc_format::parse_model(text).removed[k].len()
            ==> crate::assoc_format::parse_model(text).removed[k][a]
            != crate::assoc_format::parse_model(text).removed[k][b]) by {
        let entries = s.removed_associations@;
        crate::listmap::lemma_key_index(entries, k);
        let i = crate::listmap::key_index(entries, k);
        assert(crate::assoc_format::parse_model(text).removed[k] == entries[i].1);
    }
    lemma_load_single_source(text);
}


} // verus!
