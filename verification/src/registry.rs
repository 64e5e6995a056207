//! The application registry.
//!
//! Built once from the parsed descriptors of the scan directories, in
//! order: the first descriptor seen under an id wins, later ones with the
//! same id are ignored entirely. Two indexes answer the queries: by exact
//! MIME type and by lowercased category, each bucket holding the ids of
//! the declaring applications in registration order.

use vstd::prelude::*;

use crate::categories::AppCategory;
use crate::entry::AppEntry;
use crate::entry::base_name;
use crate::entry::base_name_str;
use crate::entry::entry_matches;
use crate::entry::parses_to_entry;
use crate::listmap::ListMap;
use crate::mimeapps::dedup_first;
use crate::mimeapps::list_or_empty;
use crate::mimeapps::valid_app_id;
use crate::strutil::lower;
use vstd::multiset::Multiset;
use crate::strutil::str_eq;

verus! {

/// Index of the first application with `id`, or `apps.len()`.
pub open spec fn app_index(apps: Seq<AppEntry>, id: Seq<char>) -> int
    decreases apps.len(),
{
    if apps.len() == 0 {
        0
    } else if apps[0].id@ == id {
        0
    } else {
        1 + app_index(apps.drop_first(), id)
    }
}

/// Whether some application has `id`.
pub open spec fn has_app(apps: Seq<AppEntry>, id: Seq<char>) -> bool {
    app_index(apps, id) < apps.len()
}

/// The application with `id`; meaningful only when [`has_app`].
pub open spec fn app_of(apps: Seq<AppEntry>, id: Seq<char>) -> AppEntry {
    apps[app_index(apps, id)]
}

/// [`app_index`] is the first position holding `id`.
pub proof fn lemma_app_index(apps: Seq<AppEntry>, id: Seq<char>)
    ensures
        0 <= app_index(apps, id) <= apps.len(),
        forall|j: int| 0 <= j < app_index(apps, id) ==> (#[trigger] apps[j].id)@ != id,
        app_index(apps, id) < apps.len() ==> apps[app_index(apps, id)].id@ == id,
    decreases apps.len(),
{
    if apps.len() > 0 && apps[0].id@ != id {
        lemma_app_index(apps.drop_first(), id);
        assert(forall|j: int|
            0 < j < apps.len() ==> (#[trigger] apps[j]) == apps.drop_first()[j - 1]);
    }
}

/// A position that is the first to hold `id` is [`app_index`].
pub proof fn lemma_app_index_is(apps: Seq<AppEntry>, id: Seq<char>, i: int)
    requires
        0 <= i <= apps.len(),
        forall|j: int| 0 <= j < i ==> (#[trigger] apps[j].id)@ != id,
        i < apps.len() ==> apps[i].id@ == id,
    ensures
        app_index(apps, id) == i,
    decreases apps.len(),
{
    if apps.len() > 0 && apps[0].id@ != id {
        assert(forall|j: int|
            0 <= j < apps.drop_first().len() ==> (#[trigger] apps.drop_first()[j]) == apps[j + 1]);
        lemma_app_index_is(apps.drop_first(), id, i - 1);
    }
}

/// No two applications share an id.
pub open spec fn distinct_ids(apps: Seq<AppEntry>) -> bool {
    forall|i: int, j: int|
        0 <= i < j < apps.len() ==> (#[trigger] apps[i].id)@ != (#[trigger] apps[j].id)@
}

/// Every application may be shown: none is hidden.
pub open spec fn all_visible(apps: Seq<AppEntry>) -> bool {
    forall|i: int|
        0 <= i < apps.len() ==> !(#[trigger] apps[i]).no_display && !apps[i].hidden
}

/// Whether the entry declares exactly the MIME type `m`.
pub open spec fn declares_mime(e: AppEntry, m: Seq<char>) -> bool {
    exists|j: int|
        0 <= j < e.mime_types.deep_view().len() && (#[trigger] e.mime_types.deep_view()[j]) == m
}

/// Whether the entry declares the category whose lowercased form is `c`.
pub open spec fn declares_category(e: AppEntry, c: Seq<char>) -> bool {
    exists|j: int|
        0 <= j < e.categories.deep_view().len() && lower(
            #[trigger] e.categories.deep_view()[j],
        ) == c
}

/// The ids of the applications declaring exactly `m`, in registration order.
pub open spec fn mime_bucket(apps: Seq<AppEntry>, m: Seq<char>) -> Seq<Seq<char>>
    decreases apps.len(),
{
    if apps.len() == 0 {
        Seq::empty()
    } else {
        let rest = mime_bucket(apps.drop_last(), m);
        if declares_mime(apps.last(), m) {
            rest.push(apps.last().id@)
        } else {
            rest
        }
    }
}

/// The ids of the applications declaring the category `c` (lowercased),
/// in registration order.
pub open spec fn cat_bucket(apps: Seq<AppEntry>, c: Seq<char>) -> Seq<Seq<char>>
    decreases apps.len(),
{
    if apps.len() == 0 {
        Seq::empty()
    } else {
        let rest = cat_bucket(apps.drop_last(), c);
        if declares_category(apps.last(), c) {
            rest.push(apps.last().id@)
        } else {
            rest
        }
    }
}

/// Every id in a MIME bucket belongs to a registered application.
pub proof fn lemma_mime_bucket_ids(apps: Seq<AppEntry>, m: Seq<char>)
    ensures
        forall|j: int|
            0 <= j < mime_bucket(apps, m).len() ==> has_app(apps, #[trigger] mime_bucket(apps, m)[j]),
    decreases apps.len(),
{
    if apps.len() > 0 {
        lemma_mime_bucket_ids(apps.drop_last(), m);
        assert forall|j: int| 0 <= j < mime_bucket(apps, m).len() implies has_app(
            apps,
            #[trigger] mime_bucket(apps, m)[j],
        ) by {
            let rest = mime_bucket(apps.drop_last(), m);
            if j < rest.len() {
                assert(has_app(apps.drop_last(), rest[j]));
                lemma_app_index(apps.drop_last(), rest[j]);
                let k = app_index(apps.drop_last(), rest[j]);
                assert(apps[k] == apps.drop_last()[k]);
                lemma_app_index(apps, rest[j]);
                if app_index(apps, rest[j]) == apps.len() {
                    assert(apps[k].id@ != rest[j]);
                }
            } else {
                lemma_app_index(apps, apps.last().id@);
                if app_index(apps, apps.last().id@) == apps.len() {
                    assert(apps[apps.len() - 1].id@ != apps.last().id@);
                }
            }
        }
    }
}

/// Every id in a category bucket belongs to a registered application.
pub proof fn lemma_cat_bucket_ids(apps: Seq<AppEntry>, c: Seq<char>)
    ensures
        forall|j: int|
            0 <= j < cat_bucket(apps, c).len() ==> has_app(apps, #[trigger] cat_bucket(apps, c)[j]),
    decreases apps.len(),
{
    if apps.len() > 0 {
        lemma_cat_bucket_ids(apps.drop_last(), c);
        assert forall|j: int| 0 <= j < cat_bucket(apps, c).len() implies has_app(
            apps,
            #[trigger] cat_bucket(apps, c)[j],
        ) by {
            let rest = cat_bucket(apps.drop_last(), c);
            if j < rest.len() {
                assert(has_app(apps.drop_last(), rest[j]));
                lemma_app_index(apps.drop_last(), rest[j]);
                let k = app_index(apps.drop_last(), rest[j]);
                assert(apps[k] == apps.drop_last()[k]);
                lemma_app_index(apps, rest[j]);
                if app_index(apps, rest[j]) == apps.len() {
                    assert(apps[k].id@ != rest[j]);
                }
            } else {
                lemma_app_index(apps, apps.last().id@);
                if app_index(apps, apps.last().id@) == apps.len() {
                    assert(apps[apps.len() - 1].id@ != apps.last().id@);
                }
            }
        }
    }
}

/// Registry of the discovered applications and its two lookup indexes.
pub struct AppRegistry {
    apps: Vec<AppEntry>,
    by_mime: ListMap,
    by_category: ListMap,
}

impl AppRegistry {
    /// The registered applications, in registration order.
    pub closed spec fn apps_view(&self) -> Seq<AppEntry> {
        self.apps@
    }

    /// Ids unique, every entry visible, and each index bucket exactly the
    /// ids of the applications declaring that MIME type or category.
    pub closed spec fn wf(&self) -> bool {
        &&& distinct_ids(self.apps@)
        &&& all_visible(self.apps@)
        &&& self.by_mime.wf()
        &&& self.by_category.wf()
        &&& forall|m: Seq<char>|
            #[trigger] list_or_empty(self.by_mime.map_view(), m) == mime_bucket(self.apps@, m)
        &&& forall|c: Seq<char>|
            #[trigger] list_or_empty(self.by_category.map_view(), c) == cat_bucket(self.apps@, c)
    }

    /// The well-formedness facts callers may rely on.
    pub proof fn lemma_wf_facts(&self)
        requires
            self.wf(),
        ensures
            distinct_ids(self.apps_view()),
            all_visible(self.apps_view()),
    {
    }

    /// An empty registry.
    pub fn empty() -> (r: AppRegistry)
        ensures
            r.wf(),
            r.apps_view() == Seq::<AppEntry>::empty(),
    {
        let r = AppRegistry { apps: Vec::new(), by_mime: ListMap::new(), by_category: ListMap::new() };
        proof {
            assert(r.apps@ =~= Seq::<AppEntry>::empty());
            assert forall|m: Seq<char>|
                #[trigger] list_or_empty(r.by_mime.map_view(), m) == mime_bucket(r.apps@, m) by {
                assert(list_or_empty(r.by_mime.map_view(), m) =~= Seq::<Seq<char>>::empty());
            }
            assert forall|c: Seq<char>|
                #[trigger] list_or_empty(r.by_category.map_view(), c) == cat_bucket(r.apps@, c) by {
                assert(list_or_empty(r.by_category.map_view(), c) =~= Seq::<Seq<char>>::empty());
            }
        }
        r
    }

    /// Position of the application with `id`, if registered.
    fn find_app(&self, id: &str) -> (r: Option<usize>)
        ensures
            match r {
                Some(i) => i < self.apps_view().len() && app_index(self.apps_view(), id@) == i,
                None => !has_app(self.apps_view(), id@),
            },
    {
        let n = self.apps.len();
        let mut i: usize = 0;
        while i < n
            invariant
                i <= n,
                n == self.apps@.len(),
                forall|j: int| 0 <= j < i ==> (#[trigger] self.apps@[j].id)@ != id@,
            decreases n - i,
        {
            if str_eq(self.apps[i].id.as_str(), id) {
                proof {
                    lemma_app_index_is(self.apps@, id@, i as int);
                }
                return Some(i);
            }
            i = i + 1;
        }
        proof {
            lemma_app_index_is(self.apps@, id@, n as int);
        }
        None
    }

    /// The registered application with `id`, if any.
    pub fn get_app(&self, id: &str) -> (r: Option<&AppEntry>)
        ensures
            match r {
                Some(e) => has_app(self.apps_view(), id@) && *e == app_of(self.apps_view(), id@),
                None => !has_app(self.apps_view(), id@),
            },
    {
        match self.find_app(id) {
            Some(i) => Some(&self.apps[i]),
            None => None,
        }
    }

    /// Registers one application: ignored entirely when its id is already
    /// taken, otherwise appended and indexed under each declared MIME type
    /// and category.
    pub fn index_app(&mut self, app: AppEntry)
        requires
            old(self).wf(),
            !app.no_display,
            !app.hidden,
        ensures
            final(self).wf(),
            has_app(old(self).apps_view(), app.id@) ==> *final(self) == *old(self),
            !has_app(old(self).apps_view(), app.id@) ==> final(self).apps_view() == old(
                self,
            ).apps_view().push(app),
    {
        if self.find_app(app.id.as_str()).is_some() {
            return;
        }
        let ghost apps0 = self.apps@;
        let ghost napps = self.apps@.push(app);
        let ghost appg = app;

        // index by declared MIME types
        let ghost mts = app.mime_types.deep_view();
        let mut i: usize = 0;
        let nm = app.mime_types.len();
        while i < nm
            invariant
                i <= nm,
                app == appg,
                nm == appg.mime_types@.len(),
                mts == appg.mime_types.deep_view(),
                mts.len() == nm,
                self.apps@ == apps0,
                self.by_mime.wf(),
                self.by_category == old(self).by_category,
                distinct_ids(apps0),
                !has_app(apps0, appg.id@),
                forall|m: Seq<char>|
                    #[trigger] list_or_empty(old(self).by_mime.map_view(), m) == mime_bucket(
                        apps0,
                        m,
                    ),
                forall|m: Seq<char>|
                    #[trigger] list_or_empty(self.by_mime.map_view(), m) == (
                    if (exists|l: int| 0 <= l < i && mts[l] == m) {
                        mime_bucket(apps0, m).push(appg.id@)
                    } else {
                        mime_bucket(apps0, m)
                    }),
            decreases nm - i,
        {
            let ghost m = mts[i as int];
            proof {
                assert(appg.mime_types.deep_view()[i as int] == appg.mime_types@[i as int]@);
            }
            let mt = self.apps_mime_key(&app, i);
            let ghost before = self.by_mime.map_view();
            let already = match self.by_mime.get(mt.as_str()) {
                Some(b) => contains_string(b, app.id.as_str()),
                None => false,
            };
            if !already {
                let mut bucket: Vec<String> = match self.by_mime.get(mt.as_str()) {
                    Some(b) => crate::strutil::clone_strings(b),
                    None => Vec::new(),
                };
                proof {
                    assert(bucket.deep_view() =~= list_or_empty(before, m));
                }
                let ghost bd = bucket.deep_view();
                bucket.push(app.id.clone());
                proof {
                    assert(bucket.deep_view() =~~= bd.push(appg.id@));
                }
                self.by_mime.insert(mt, bucket);
            }
            i = i + 1;
            proof {
                lemma_index_step(before, self.by_mime.map_view(), apps0, appg, mts, i as int, m, already);
            }
        }
        proof {
            assert forall|m: Seq<char>|
                #[trigger] list_or_empty(self.by_mime.map_view(), m) == mime_bucket(napps, m) by {
                assert(napps.drop_last() =~= apps0);
                assert(napps.last() == appg);
                assert(declares_mime(appg, m) == (exists|l: int| 0 <= l < nm && mts[l] == m));
            }
        }

        // index by declared categories, lowercased
        let ghost cts = app.categories.deep_view();
        let mut i2: usize = 0;
        let nc = app.categories.len();
        while i2 < nc
            invariant
                i2 <= nc,
                app == appg,
                nc == appg.categories@.len(),
                cts == appg.categories.deep_view(),
                self.by_mime.wf(),
                cts.len() == nc,
                self.apps@ == apps0,
                self.by_category.wf(),
                distinct_ids(apps0),
                !has_app(apps0, appg.id@),
                forall|m: Seq<char>|
                    #[trigger] list_or_empty(self.by_mime.map_view(), m) == mime_bucket(napps, m),
                napps == apps0.push(appg),
                forall|c: Seq<char>|
                    #[trigger] list_or_empty(old(self).by_category.map_view(), c) == cat_bucket(
                        apps0,
                        c,
                    ),
                forall|c: Seq<char>|
                    #[trigger] list_or_empty(self.by_category.map_view(), c) == (
                    if (exists|l: int| 0 <= l < i2 && lower(cts[l]) == c) {
                        cat_bucket(apps0, c).push(appg.id@)
                    } else {
                        cat_bucket(apps0, c)
                    }),
            decreases nc - i2,
        {
            let ghost c = lower(cts[i2 as int]);
            proof {
                assert(appg.categories.deep_view()[i2 as int] == appg.categories@[i2 as int]@);
            }
            let ct = self.apps_cat_key(&app, i2);
            let ghost before = self.by_category.map_view();
            let already = match self.by_category.get(ct.as_str()) {
                Some(b) => contains_string(b, app.id.as_str()),
                None => false,
            };
            if !already {
                let mut bucket: Vec<String> = match self.by_category.get(ct.as_str()) {
                    Some(b) => crate::strutil::clone_strings(b),
                    None => Vec::new(),
                };
                proof {
                    assert(bucket.deep_view() =~= list_or_empty(before, c));
                }
                let ghost bd = bucket.deep_view();
                bucket.push(app.id.clone());
                proof {
                    assert(bucket.deep_view() =~~= bd.push(appg.id@));
                }
                self.by_category.insert(ct, bucket);
            }
            i2 = i2 + 1;
            proof {
                lemma_cat_index_step(
                    before,
                    self.by_category.map_view(),
                    apps0,
                    appg,
                    cts,
                    i2 as int,
                    c,
                    already,
                );
            }
        }
        proof {
            assert forall|c: Seq<char>|
                #[trigger] list_or_empty(self.by_category.map_view(), c) == cat_bucket(napps, c) by {
                assert(napps.drop_last() =~= apps0);
                assert(napps.last() == appg);
                assert(declares_category(appg, c) == (exists|l: int|
                    0 <= l < nc && lower(cts[l]) == c));
            }
        }

        self.apps.push(app);
        proof {
            assert(self.apps@ =~= napps);
            assert(distinct_ids(napps)) by {
                lemma_app_index(apps0, appg.id@);
                assert forall|a: int, b: int| 0 <= a < b < napps.len() implies (
                #[trigger] napps[a].id)@ != (#[trigger] napps[b].id)@ by {
                    if b == napps.len() - 1 {
                        assert(napps[a] == apps0[a]);
                        assert(apps0[a].id@ != appg.id@);
                    } else {
                        assert(napps[a] == apps0[a]);
                        assert(napps[b] == apps0[b]);
                    }
                }
            }
            assert(all_visible(napps)) by {
                assert(forall|a: int| 0 <= a < apps0.len() ==> (#[trigger] napps[a]) == apps0[a]);
            }
        }
    }

    /// The declared MIME type at `i` of the entry, as an owned string.
    fn apps_mime_key(&self, app: &AppEntry, i: usize) -> (r: String)
        requires
            i < app.mime_types@.len(),
        ensures
            r@ == app.mime_types.deep_view()[i as int],
    {
        proof {
            assert(app.mime_types.deep_view()[i as int] == app.mime_types@[i as int]@);
        }
        app.mime_types[i].clone()
    }

    /// The declared category at `i` of the entry, lowercased.
    fn apps_cat_key(&self, app: &AppEntry, i: usize) -> (r: String)
        requires
            i < app.categories@.len(),
        ensures
            r@ == lower(app.categories.deep_view()[i as int]),
    {
        proof {
            assert(app.categories.deep_view()[i as int] == app.categories@[i as int]@);
        }
        let chars = crate::strutil::str_chars(app.categories[i].as_str());
        let low = crate::strutil::lower_chars(&chars);
        crate::strutil::chars_string(&low)
    }
}

/// One candidate descriptor file handed to the scan: either it is skipped
/// (wrong file-name suffix, unparsable, or an already-taken id) and the
/// applications stay as they were, or its entry is appended.
pub open spec fn scan_step(
    acc0: Seq<AppEntry>,
    f: (Seq<char>, Seq<char>),
    locales: Seq<Seq<char>>,
    acc1: Seq<AppEntry>,
) -> bool {
    if valid_app_id(base_name(f.0)) && parses_to_entry(f.1, f.0, locales) {
        if has_app(acc0, base_name(f.0)) {
            acc1 == acc0
        } else {
            acc1.len() == acc0.len() + 1 && acc1.drop_last() == acc0 && entry_matches(
                acc1.last(),
                f.1,
                f.0,
                locales,
            )
        }
    } else {
        acc1 == acc0
    }
}

/// The candidate files `(path, content)` scanned in order, taking the
/// applications from `acc0` to `acc1`.
pub open spec fn scan_rel(
    files: Seq<(Seq<char>, Seq<char>)>,
    locales: Seq<Seq<char>>,
    acc0: Seq<AppEntry>,
    acc1: Seq<AppEntry>,
) -> bool
    decreases files.len(),
{
    if files.len() == 0 {
        acc1 == acc0
    } else {
        exists|mid: Seq<AppEntry>|
            #[trigger] scan_step(acc0, files[0], locales, mid) && scan_rel(
                files.drop_first(),
                locales,
                mid,
                acc1,
            )
    }
}

/// A scan of one more file at the end is the scan followed by one step.
pub proof fn lemma_scan_rel_push(
    files: Seq<(Seq<char>, Seq<char>)>,
    locales: Seq<Seq<char>>,
    acc0: Seq<AppEntry>,
    acc1: Seq<AppEntry>,
    f: (Seq<char>, Seq<char>),
    acc2: Seq<AppEntry>,
)
    requires
        scan_rel(files, locales, acc0, acc1),
        scan_step(acc1, f, locales, acc2),
    ensures
        scan_rel(files.push(f), locales, acc0, acc2),
    decreases files.len(),
{
    reveal_with_fuel(scan_rel, 2);
    if files.len() == 0 {
        assert(files.push(f)[0] == f);
        assert(files.push(f).drop_first() =~= Seq::<(Seq<char>, Seq<char>)>::empty());
        assert(scan_step(acc0, files.push(f)[0], locales, acc2) && scan_rel(
            files.push(f).drop_first(),
            locales,
            acc2,
            acc2,
        ));
    } else {
        let mid = choose|mid: Seq<AppEntry>|
            #[trigger] scan_step(acc0, files[0], locales, mid) && scan_rel(
                files.drop_first(),
                locales,
                mid,
                acc1,
            );
        lemma_scan_rel_push(files.drop_first(), locales, mid, acc1, f, acc2);
        assert(files.push(f)[0] == files[0]);
        assert(files.push(f).drop_first() =~= files.drop_first().push(f));
        assert(scan_step(acc0, files.push(f)[0], locales, mid) && scan_rel(
            files.push(f).drop_first(),
            locales,
            mid,
            acc2,
        ));
    }
}

impl AppRegistry {
    /// Builds the registry from the candidate descriptor files of the scan
    /// directories, given as `(path, content)` in priority order: a file
    /// without the descriptor suffix or that does not parse is skipped, and
    /// the first descriptor seen under an id shadows every later one.
    pub fn new(files: &Vec<(String, String)>, locales: &[String]) -> (r: AppRegistry)
        ensures
            r.wf(),
            scan_rel(
                files.deep_view(),
                locales.deep_view(),
                Seq::<AppEntry>::empty(),
                r.apps_view(),
            ),
    {
        let ghost fv = files.deep_view();
        let ghost lv = locales.deep_view();
        let mut reg = AppRegistry::empty();
        let n = files.len();
        let mut i: usize = 0;
        proof {
            assert(fv.subrange(0, 0) =~= Seq::<(Seq<char>, Seq<char>)>::empty());
        }
        while i < n
            invariant
                i <= n,
                n == files@.len(),
                fv == files.deep_view(),
                fv.len() == n,
                lv == locales.deep_view(),
                reg.wf(),
                scan_rel(fv.subrange(0, i as int), lv, Seq::<AppEntry>::empty(), reg.apps_view()),
            decreases n - i,
        {
            let ghost before = reg.apps_view();
            let ghost f = fv[i as int];
            proof {
                assert(fv.subrange(0, i + 1) =~= fv.subrange(0, i as int).push(f));
                assert(files.deep_view()[i as int].0 == files@[i as int].0@);
                assert(files.deep_view()[i as int].1 == files@[i as int].1@);
            }
            let base = base_name_str(files[i].0.as_str());
            if crate::mimeapps::MimeAppsConfig::validate_app_id(base.as_str()).is_ok() {
                match AppEntry::parse(files[i].1.as_str(), files[i].0.as_str(), locales) {
                    Some(e) => {
                        proof {
                            assert(e.id@ == base_name(f.0));
                        }
                        reg.index_app(e);
                        proof {
                            if !has_app(before, e.id@) {
                                assert(reg.apps_view().drop_last() =~= before);
                                assert(reg.apps_view().last() == e);
                            }
                            assert(scan_step(before, f, lv, reg.apps_view()));
                        }
                    },
                    None => {
                        proof {
                            assert(!parses_to_entry(f.1, f.0, lv));
                            assert(scan_step(before, f, lv, reg.apps_view()));
                        }
                    },
                }
            } else {
                proof {
                    assert(!valid_app_id(base_name(f.0)));
                    assert(scan_step(before, f, lv, reg.apps_view()));
                }
            }
            proof {
                lemma_scan_rel_push(
                    fv.subrange(0, i as int),
                    lv,
                    Seq::<AppEntry>::empty(),
                    before,
                    f,
                    reg.apps_view(),
                );
            }
            i = i + 1;
        }
        proof {
            assert(fv.subrange(0, n as int) =~= fv);
        }
        reg
    }
}

/// Whether any element of `v` equals `s`.
fn contains_string(v: &Vec<String>, s: &str) -> (r: bool)
    ensures
        r == v.deep_view().contains(s@),
{
    let mut i: usize = 0;
    while i < v.len()
        invariant
            i <= v@.len(),
            forall|j: int| 0 <= j < i ==> v.deep_view()[j] != s@,
        decreases v@.len() - i,
    {
        proof {
            assert(v.deep_view()[i as int] == v@[i as int]@);
        }
        if str_eq(v[i].as_str(), s) {
            proof {
                assert(v.deep_view()[i as int] == s@);
            }
            return true;
        }
        i = i + 1;
    }
    proof {
        assert(forall|j: int| 0 <= j < v.deep_view().len() ==> v.deep_view()[j] != s@);
    }
    false
}

/// One MIME declaration of the new application folded into the index:
/// its bucket gains the new id once, every other bucket stays.
proof fn lemma_index_step(
    before: Map<Seq<char>, Seq<Seq<char>>>,
    after: Map<Seq<char>, Seq<Seq<char>>>,
    apps0: Seq<AppEntry>,
    app: AppEntry,
    mts: Seq<Seq<char>>,
    i: int,
    m: Seq<char>,
    already: bool,
)
    requires
        0 < i <= mts.len(),
        m == mts[i - 1],
        forall|m2: Seq<char>|
            #[trigger] list_or_empty(before, m2) == (if (exists|l: int|
                0 <= l < i - 1 && mts[l] == m2) {
                mime_bucket(apps0, m2).push(app.id@)
            } else {
                mime_bucket(apps0, m2)
            }),
        already == list_or_empty(before, m).contains(app.id@),
        !has_app(apps0, app.id@),
        already ==> after == before,
        !already ==> after == before.insert(m, list_or_empty(before, m).push(app.id@)),
    ensures
        forall|m2: Seq<char>|
            #[trigger] list_or_empty(after, m2) == (if (exists|l: int| 0 <= l < i && mts[l] == m2) {
                mime_bucket(apps0, m2).push(app.id@)
            } else {
                mime_bucket(apps0, m2)
            }),
{
    lemma_mime_bucket_ids(apps0, m);
    assert forall|m2: Seq<char>| true implies #[trigger] list_or_empty(after, m2) == (if (
    exists|l: int| 0 <= l < i && mts[l] == m2) {
        mime_bucket(apps0, m2).push(app.id@)
    } else {
        mime_bucket(apps0, m2)
    }) by {
        if m2 == m {
            if already {
                // the id can already be there only from an earlier declaration
                // of the same type, since no registered application has it
                assert(exists|l: int| 0 <= l < i - 1 && mts[l] == m) by {
                    if !(exists|l: int| 0 <= l < i - 1 && mts[l] == m) {
                        assert(list_or_empty(before, m) == mime_bucket(apps0, m));
                        let j = choose|j: int|
                            0 <= j < mime_bucket(apps0, m).len() && mime_bucket(apps0, m)[j]
                                == app.id@;
                        assert(has_app(apps0, app.id@));
                    }
                }
                assert(mts[i - 1] == m);
            } else {
                assert(!(exists|l: int| 0 <= l < i - 1 && mts[l] == m)) by {
                    if exists|l: int| 0 <= l < i - 1 && mts[l] == m {
                        assert(list_or_empty(before, m) == mime_bucket(apps0, m).push(app.id@));
                        assert(list_or_empty(before, m).last() == app.id@);
                        assert(list_or_empty(before, m).contains(app.id@));
                    }
                }
                assert(list_or_empty(after, m) == mime_bucket(apps0, m).push(app.id@));
            }
        } else {
            if !already {
                assert(list_or_empty(after, m2) == list_or_empty(before, m2));
            }
            assert((exists|l: int| 0 <= l < i && mts[l] == m2) == (exists|l: int|
                0 <= l < i - 1 && mts[l] == m2)) by {
                if exists|l: int| 0 <= l < i && mts[l] == m2 {
                    let l = choose|l: int| 0 <= l < i && mts[l] == m2;
                    assert(l != i - 1);
                }
            }
        }
    }
}

/// One category declaration folded into the index, as with MIME types.
proof fn lemma_cat_index_step(
    before: Map<Seq<char>, Seq<Seq<char>>>,
    after: Map<Seq<char>, Seq<Seq<char>>>,
    apps0: Seq<AppEntry>,
    app: AppEntry,
    cts: Seq<Seq<char>>,
    i: int,
    c: Seq<char>,
    already: bool,
)
    requires
        0 < i <= cts.len(),
        c == lower(cts[i - 1]),
        forall|c2: Seq<char>|
            #[trigger] list_or_empty(before, c2) == (if (exists|l: int|
                0 <= l < i - 1 && lower(cts[l]) == c2) {
                cat_bucket(apps0, c2).push(app.id@)
            } else {
                cat_bucket(apps0, c2)
            }),
        already == list_or_empty(before, c).contains(app.id@),
        !has_app(apps0, app.id@),
        already ==> after == before,
        !already ==> after == before.insert(c, list_or_empty(before, c).push(app.id@)),
    ensures
        forall|c2: Seq<char>|
            #[trigger] list_or_empty(after, c2) == (if (exists|l: int|
                0 <= l < i && lower(cts[l]) == c2) {
                cat_bucket(apps0, c2).push(app.id@)
            } else {
                cat_bucket(apps0, c2)
            }),
{
    lemma_cat_bucket_ids(apps0, c);
    assert forall|c2: Seq<char>| true implies #[trigger] list_or_empty(after, c2) == (if (
    exists|l: int| 0 <= l < i && lower(cts[l]) == c2) {
        cat_bucket(apps0, c2).push(app.id@)
    } else {
        cat_bucket(apps0, c2)
    }) by {
        if c2 == c {
            if already {
                assert(exists|l: int| 0 <= l < i - 1 && lower(cts[l]) == c) by {
                    if !(exists|l: int| 0 <= l < i - 1 && lower(cts[l]) == c) {
                        assert(list_or_empty(before, c) == cat_bucket(apps0, c));
                        let j = choose|j: int|
                            0 <= j < cat_bucket(apps0, c).len() && cat_bucket(apps0, c)[j]
                                == app.id@;
                        assert(has_app(apps0, app.id@));
                    }
                }
                assert(lower(cts[i - 1]) == c);
            } else {
                assert(!(exists|l: int| 0 <= l < i - 1 && lower(cts[l]) == c)) by {
                    if exists|l: int| 0 <= l < i - 1 && lower(cts[l]) == c {
                        assert(list_or_empty(before, c) == cat_bucket(apps0, c).push(app.id@));
                        assert(list_or_empty(before, c).last() == app.id@);
                        assert(list_or_empty(before, c).contains(app.id@));
                    }
                }
                assert(list_or_empty(after, c) == cat_bucket(apps0, c).push(app.id@));
            }
        } else {
            if !already {
                assert(list_or_empty(after, c2) == list_or_empty(before, c2));
            }
            assert((exists|l: int| 0 <= l < i && lower(cts[l]) == c2) == (exists|l: int|
                0 <= l < i - 1 && lower(cts[l]) == c2)) by {
                if exists|l: int| 0 <= l < i && lower(cts[l]) == c2 {
                    let l = choose|l: int| 0 <= l < i && lower(cts[l]) == c2;
                    assert(l != i - 1);
                }
            }
        }
    }
}

/// The `maintype/*` pattern looked up alongside an exact MIME type.
pub open spec fn wildcard_of(m: Seq<char>) -> Seq<char> {
    m.subrange(0, crate::strutil::find_ch(m, '/')) + "/*"@
}

/// The ids [`AppRegistry::apps_for_mime`] returns: the exact bucket first,
/// then the wildcard bucket for the main type, first occurrence kept.
pub open spec fn mime_query_ids(apps: Seq<AppEntry>, m: Seq<char>) -> Seq<Seq<char>> {
    dedup_first(
        mime_bucket(apps, m) + (if crate::strutil::find_ch(m, '/') < m.len() {
            mime_bucket(apps, wildcard_of(m))
        } else {
            Seq::empty()
        }),
    )
}

/// Every element of a first-occurrence dedup comes from the source.
pub proof fn lemma_dedup_first_members(s: Seq<Seq<char>>)
    ensures
        forall|j: int| 0 <= j < dedup_first(s).len() ==> s.contains(#[trigger] dedup_first(s)[j]),
        forall|j1: int, j2: int|
            0 <= j1 < j2 < dedup_first(s).len() ==> (#[trigger] dedup_first(s)[j1]) != (
            #[trigger] dedup_first(s)[j2]),
        forall|x: Seq<char>| s.contains(x) ==> #[trigger] dedup_first(s).contains(x),
    decreases s.len(),
{
    if s.len() > 0 {
        lemma_dedup_first_members(s.drop_last());
        let d = dedup_first(s);
        let dp = dedup_first(s.drop_last());
        assert forall|j: int| 0 <= j < d.len() implies s.contains(#[trigger] d[j]) by {
            if j < dp.len() {
                assert(s.drop_last().contains(dp[j]));
                let k = choose|k: int| 0 <= k < s.drop_last().len() && s.drop_last()[k] == dp[j];
                assert(s[k] == dp[j]);
            } else {
                assert(d[j] == s.last());
                assert(s[s.len() - 1] == s.last());
            }
        }
        assert forall|x: Seq<char>| s.contains(x) implies #[trigger] d.contains(x) by {
            let k = choose|k: int| 0 <= k < s.len() && s[k] == x;
            if k < s.len() - 1 {
                assert(s.drop_last()[k] == x);
                assert(s.drop_last().contains(x));
                assert(dp.contains(x));
                let j = choose|j: int| 0 <= j < dp.len() && dp[j] == x;
                assert(d[j] == x);
            } else {
                if dp.contains(s.last()) {
                    let j = choose|j: int| 0 <= j < dp.len() && dp[j] == x;
                    assert(d[j] == x);
                } else {
                    assert(d.last() == x);
                }
            }
        }
        assert forall|j1: int, j2: int| 0 <= j1 < j2 < d.len() implies (#[trigger] d[j1]) != (
        #[trigger] d[j2]) by {
            if j2 == d.len() - 1 && !dp.contains(s.last()) {
                assert(d[j1] == dp[j1]);
                assert(dp.contains(dp[j1]));
            }
        }
    }
}

/// Ordering of the category-group view: case-insensitive display name,
/// ties broken by id.
pub open spec fn entry_le(a: AppEntry, b: AppEntry) -> bool {
    if lower(a.name@) != lower(b.name@) {
        crate::strutil::lex_le(lower(a.name@), lower(b.name@))
    } else {
        crate::strutil::lex_le(a.id@, b.id@)
    }
}

/// [`entry_le`] is total.
pub proof fn lemma_entry_le_total(a: AppEntry, b: AppEntry)
    ensures
        entry_le(a, b) || entry_le(b, a),
{
    crate::strutil::lemma_lex_total(lower(a.name@), lower(b.name@));
    crate::strutil::lemma_lex_total(a.id@, b.id@);
}

/// [`entry_le`] is transitive.
pub proof fn lemma_entry_le_trans(a: AppEntry, b: AppEntry, c: AppEntry)
    requires
        entry_le(a, b),
        entry_le(b, c),
    ensures
        entry_le(a, c),
{
    let na = lower(a.name@);
    let nb = lower(b.name@);
    let nc = lower(c.name@);
    crate::strutil::lemma_lex_total(na, nb);
    crate::strutil::lemma_lex_total(nb, nc);
    crate::strutil::lemma_lex_total(na, nc);
    if na != nb && nb != nc {
        crate::strutil::lemma_lex_trans(na, nb, nc);
        if na == nc {
            crate::strutil::lemma_lex_trans(nb, nc, na);
        }
    } else if na == nb && nb == nc {
        crate::strutil::lemma_lex_trans(a.id@, b.id@, c.id@);
    }
}

/// Whether the lowercased query occurs in the name, generic name or
/// comment of the entry.
pub open spec fn matches_query(e: AppEntry, q: Seq<char>) -> bool {
    ||| crate::strutil::contains_sub(lower(e.name@), q)
    ||| match e.generic_name {
        Some(g) => crate::strutil::contains_sub(lower(g@), q),
        None => false,
    }
    ||| match e.comment {
        Some(cm) => crate::strutil::contains_sub(lower(cm@), q),
        None => false,
    }
}

/// Every entry of `r` is a registered application looked up by its id.
pub open spec fn entries_from(apps: Seq<AppEntry>, r: Seq<&AppEntry>) -> bool {
    forall|i: int|
        0 <= i < r.len() ==> has_app(apps, (#[trigger] r[i]).id@) && *r[i] == app_of(
            apps,
            r[i].id@,
        )
}

/// No two entries of `r` share an id.
pub open spec fn distinct_result(r: Seq<&AppEntry>) -> bool {
    forall|i: int, j: int|
        0 <= i < j < r.len() ==> (#[trigger] r[i]).id@ != (#[trigger] r[j]).id@
}

/// Whether some entry of the result carries `id`.
pub open spec fn holds_id(r: Seq<&AppEntry>, id: Seq<char>) -> bool {
    exists|i: int| 0 <= i < r.len() && (#[trigger] r[i]).id@ == id
}

/// A permutation holds an id among its entries exactly when the original
/// does, and keeps every entry a registered application.
proof fn lemma_perm_result(apps: Seq<AppEntry>, a: Seq<&AppEntry>, b: Seq<&AppEntry>)
    requires
        a.to_multiset() == b.to_multiset(),
    ensures
        forall|id: Seq<char>| #[trigger] holds_id(a, id) == holds_id(b, id),
        entries_from(apps, a) ==> entries_from(apps, b),
{
    broadcast use vstd::seq_lib::group_to_multiset_ensures;

    assert forall|id: Seq<char>| #[trigger] holds_id(a, id) == holds_id(b, id) by {
        if holds_id(a, id) {
            let i = choose|i: int| 0 <= i < a.len() && (#[trigger] a[i]).id@ == id;
            assert(a.contains(a[i]));
            assert(a.to_multiset().count(a[i]) > 0);
            assert(b.to_multiset().count(a[i]) > 0);
            assert(b.contains(a[i]));
            let j = choose|j: int| 0 <= j < b.len() && b[j] == a[i];
            assert(holds_id(b, id));
        }
        if holds_id(b, id) {
            let i = choose|i: int| 0 <= i < b.len() && (#[trigger] b[i]).id@ == id;
            assert(b.contains(b[i]));
            assert(b.to_multiset().count(b[i]) > 0);
            assert(a.to_multiset().count(b[i]) > 0);
            assert(a.contains(b[i]));
            let j = choose|j: int| 0 <= j < a.len() && a[j] == b[i];
            assert(holds_id(a, id));
        }
    }
    if entries_from(apps, a) {
        assert forall|i: int| 0 <= i < b.len() implies has_app(apps, (#[trigger] b[i]).id@)
            && *b[i] == app_of(apps, b[i].id@) by {
            assert(b.contains(b[i]));
            assert(b.to_multiset().count(b[i]) > 0);
            assert(a.to_multiset().count(b[i]) > 0);
            assert(a.contains(b[i]));
            let j = choose|j: int| 0 <= j < a.len() && a[j] == b[i];
        }
    }
}

/// A permutation of a result with pairwise-distinct ids, all looked up in
/// the registry, is itself pairwise distinct.
proof fn lemma_perm_distinct(apps: Seq<AppEntry>, a: Seq<&AppEntry>, b: Seq<&AppEntry>)
    requires
        a.to_multiset() == b.to_multiset(),
        distinct_result(a),
        entries_from(apps, a),
    ensures
        distinct_result(b),
{
    broadcast use vstd::seq_lib::group_to_multiset_ensures;

    lemma_perm_result(apps, a, b);
    assert(a.no_duplicates()) by {
        assert forall|i: int, j: int|
            0 <= i < a.len() && 0 <= j < a.len() && i != j implies a[i] != a[j] by {
            if i < j {
                assert(a[i].id@ != a[j].id@);
            } else {
                assert(a[j].id@ != a[i].id@);
            }
        }
    }
    a.lemma_multiset_has_no_duplicates();
    b.lemma_multiset_has_no_duplicates_conv();
    assert forall|i: int, j: int| 0 <= i < j < b.len() implies (#[trigger] b[i]).id@ != (
    #[trigger] b[j]).id@ by {
        if b[i].id@ == b[j].id@ {
            assert(*b[i] == app_of(apps, b[i].id@));
            assert(*b[j] == app_of(apps, b[j].id@));
            assert(b[i] == b[j]);
        }
    }
}

/// Selection sort by [`entry_le`].
fn sort_by_entry_le<'a>(src: Vec<&'a AppEntry>) -> (r: Vec<&'a AppEntry>)
    ensures
        r@.to_multiset() == src@.to_multiset(),
        forall|i: int, j: int| 0 <= i < j < r@.len() ==> entry_le(*(#[trigger] r@[i]), *(#[trigger] r@[j])),
{
    broadcast use vstd::seq_lib::group_to_multiset_ensures;
    broadcast use vstd::multiset::group_multiset_axioms;

    let mut rest = src;
    let mut out: Vec<&'a AppEntry> = Vec::new();
    proof {
        assert(out@ =~= Seq::<&'a AppEntry>::empty());
        assert(out@.to_multiset() =~= Multiset::<&'a AppEntry>::empty());
        assert(out@.to_multiset().add(rest@.to_multiset()) =~= rest@.to_multiset());
    }
    while rest.len() > 0
        invariant
            out@.to_multiset().add(rest@.to_multiset()) == src@.to_multiset(),
            forall|i: int, j: int|
                0 <= i < j < out@.len() ==> entry_le(*(#[trigger] out@[i]), *(#[trigger] out@[j])),
            forall|i: int, j: int|
                0 <= i < out@.len() && 0 <= j < rest@.len() ==> entry_le(
                    *(#[trigger] out@[i]),
                    *(#[trigger] rest@[j]),
                ),
        decreases rest@.len(),
    {
        let mut mi: usize = 0;
        let mut j: usize = 1;
        proof {
            lemma_entry_le_total(*rest@[0], *rest@[0]);
        }
        while j < rest.len()
            invariant
                mi < j <= rest@.len(),
                rest@.len() > 0,
                forall|k: int| 0 <= k < j ==> entry_le(*rest@[mi as int], *(#[trigger] rest@[k])),
            decreases rest@.len() - j,
        {
            if entry_le_exec(rest[j], rest[mi]) {
                proof {
                    assert forall|k: int| 0 <= k < j + 1 implies entry_le(
                        *rest@[j as int],
                        *(#[trigger] rest@[k]),
                    ) by {
                        if k < j {
                            lemma_entry_le_trans(*rest@[j as int], *rest@[mi as int], *rest@[k]);
                        } else {
                            lemma_entry_le_total(*rest@[j as int], *rest@[j as int]);
                        }
                    }
                }
                mi = j;
            } else {
                proof {
                    lemma_entry_le_total(*rest@[j as int], *rest@[mi as int]);
                }
            }
            j = j + 1;
        }
        let picked = rest[mi];
        let ghost old_out = out@;
        let ghost old_rest = rest@;
        out.push(picked);
        rest.remove(mi);
        proof {
            assert(rest@ == old_rest.remove(mi as int));
            assert(out@ == old_out.push(picked));
            vstd::seq_lib::to_multiset_contains(old_rest, picked);
            vstd::seq_lib::to_multiset_build(old_out, picked);
            vstd::seq_lib::to_multiset_remove(old_rest, mi as int);
            assert(old_rest.contains(picked));
            assert(old_rest.to_multiset().count(picked) > 0);
            assert(out@.to_multiset() =~= old_out.to_multiset().insert(picked));
            assert(rest@.to_multiset() =~= old_rest.to_multiset().remove(picked));
            assert(out@.to_multiset().add(rest@.to_multiset()) =~= src@.to_multiset());
        }
    }
    proof {
        assert(rest@ =~= Seq::<&AppEntry>::empty());
        assert(rest@.to_multiset() =~= Multiset::<&AppEntry>::empty());
        assert(out@.to_multiset() =~= src@.to_multiset());
    }
    out
}

/// Selection sort by name.
fn sort_by_name<'a>(src: Vec<&'a AppEntry>) -> (r: Vec<&'a AppEntry>)
    ensures
        r@.to_multiset() == src@.to_multiset(),
        forall|i: int, j: int|
            0 <= i < j < r@.len() ==> crate::strutil::lex_le(
                (*(#[trigger] r@[i])).name@,
                (*(#[trigger] r@[j])).name@,
            ),
{
    broadcast use vstd::seq_lib::group_to_multiset_ensures;
    broadcast use vstd::multiset::group_multiset_axioms;

    let mut rest = src;
    let mut out: Vec<&'a AppEntry> = Vec::new();
    proof {
        assert(out@ =~= Seq::<&'a AppEntry>::empty());
        assert(out@.to_multiset() =~= Multiset::<&'a AppEntry>::empty());
        assert(out@.to_multiset().add(rest@.to_multiset()) =~= rest@.to_multiset());
    }
    while rest.len() > 0
        invariant
            out@.to_multiset().add(rest@.to_multiset()) == src@.to_multiset(),
            forall|i: int, j: int|
                0 <= i < j < out@.len() ==> crate::strutil::lex_le(
                    (*(#[trigger] out@[i])).name@,
                    (*(#[trigger] out@[j])).name@,
                ),
            forall|i: int, j: int|
                0 <= i < out@.len() && 0 <= j < rest@.len() ==> crate::strutil::lex_le(
                    (*(#[trigger] out@[i])).name@,
                    (*(#[trigger] rest@[j])).name@,
                ),
        decreases rest@.len(),
    {
        let mut mi: usize = 0;
        let mut j: usize = 1;
        proof {
            crate::strutil::lemma_lex_total((*rest@[0]).name@, (*rest@[0]).name@);
        }
        while j < rest.len()
            invariant
                mi < j <= rest@.len(),
                rest@.len() > 0,
                forall|k: int|
                    0 <= k < j ==> crate::strutil::lex_le(
                        (*rest@[mi as int]).name@,
                        (*(#[trigger] rest@[k])).name@,
                    ),
            decreases rest@.len() - j,
        {
            if crate::strutil::str_le(rest[j].name.as_str(), rest[mi].name.as_str()) {
                proof {
                    assert forall|k: int| 0 <= k < j + 1 implies crate::strutil::lex_le(
                        (*rest@[j as int]).name@,
                        (*(#[trigger] rest@[k])).name@,
                    ) by {
                        if k < j {
                            crate::strutil::lemma_lex_trans(
                                (*rest@[j as int]).name@,
                                (*rest@[mi as int]).name@,
                                (*rest@[k]).name@,
                            );
                        } else {
                            crate::strutil::lemma_lex_total(
                                (*rest@[j as int]).name@,
                                (*rest@[j as int]).name@,
                            );
                        }
                    }
                }
                mi = j;
            } else {
                proof {
                    crate::strutil::lemma_lex_total(
                        (*rest@[j as int]).name@,
                        (*rest@[mi as int]).name@,
                    );
                }
            }
            j = j + 1;
        }
        let picked = rest[mi];
        let ghost old_out = out@;
        let ghost old_rest = rest@;
        out.push(picked);
        rest.remove(mi);
        proof {
            assert(rest@ == old_rest.remove(mi as int));
            assert(out@ == old_out.push(picked));
            vstd::seq_lib::to_multiset_contains(old_rest, picked);
            vstd::seq_lib::to_multiset_build(old_out, picked);
            vstd::seq_lib::to_multiset_remove(old_rest, mi as int);
            assert(old_rest.contains(picked));
            assert(old_rest.to_multiset().count(picked) > 0);
            assert(out@.to_multiset() =~= old_out.to_multiset().insert(picked));
            assert(rest@.to_multiset() =~= old_rest.to_multiset().remove(picked));
            assert(out@.to_multiset().add(rest@.to_multiset()) =~= src@.to_multiset());
        }
    }
    proof {
        assert(rest@ =~= Seq::<&AppEntry>::empty());
        assert(rest@.to_multiset() =~= Multiset::<&AppEntry>::empty());
        assert(out@.to_multiset() =~= src@.to_multiset());
    }
    out
}

/// The case-insensitive-name-then-id order, executably.
fn entry_le_exec(a: &AppEntry, b: &AppEntry) -> (r: bool)
    ensures
        r == entry_le(*a, *b),
{
    let la = crate::strutil::lower_chars(&crate::strutil::str_chars(a.name.as_str()));
    let lb = crate::strutil::lower_chars(&crate::strutil::str_chars(b.name.as_str()));
    if crate::strutil::chars_eq(&la, &lb) {
        crate::strutil::str_le(a.id.as_str(), b.id.as_str())
    } else {
        crate::strutil::chars_le(&la, &lb)
    }
}


/// Membership in a category group, relative to explicit MIME and category
/// lists: the id turns up for one of the listed MIME types or one of the
/// listed desktop categories.
pub open spec fn in_lists(
    apps: Seq<AppEntry>,
    ms: Seq<Seq<char>>,
    cs: Seq<Seq<char>>,
    id: Seq<char>,
) -> bool {
    ||| exists|mi: int|
        0 <= mi < ms.len() && (#[trigger] mime_query_ids(apps, ms[mi])).contains(id)
    ||| exists|ci: int|
        0 <= ci < cs.len() && (#[trigger] cat_bucket(apps, lower(cs[ci]))).contains(id)
}

/// Membership in a category's application group: the id turns up for one
/// of the category's primary MIME types or desktop categories.
pub open spec fn in_group(apps: Seq<AppEntry>, cat: AppCategory, id: Seq<char>) -> bool {
    in_lists(
        apps,
        crate::categories::primary_mime_types_spec(cat),
        crate::categories::desktop_categories_spec(cat),
        id,
    )
}

/// Whether some entry of `v` carries `id`.
fn contains_id(v: &Vec<&AppEntry>, id: &str) -> (r: bool)
    ensures
        r == holds_id(v@, id@),
{
    let mut i: usize = 0;
    while i < v.len()
        invariant
            i <= v@.len(),
            forall|j: int| 0 <= j < i ==> (#[trigger] v@[j]).id@ != id@,
        decreases v@.len() - i,
    {
        if str_eq(v[i].id.as_str(), id) {
            return true;
        }
        i = i + 1;
    }
    false
}

/// The elements of `v` as string slices.
fn str_refs<'x>(v: &'x Vec<String>) -> (r: Vec<&'x str>)
    ensures
        r.deep_view() == v.deep_view(),
{
    let mut r: Vec<&'x str> = Vec::new();
    let mut i: usize = 0;
    while i < v.len()
        invariant
            i <= v@.len(),
            r@.len() == i,
            forall|j: int| 0 <= j < i ==> (#[trigger] r@[j])@ == v@[j]@,
        decreases v@.len() - i,
    {
        r.push(v[i].as_str());
        i = i + 1;
    }
    proof {
        assert forall|j: int| 0 <= j < v.deep_view().len() implies r.deep_view()[j]
            == v.deep_view()[j] by {
            assert(r.deep_view()[j] =~= r@[j]@);
            assert(v.deep_view()[j] =~= v@[j]@);
        }
        assert(r.deep_view() =~~= v.deep_view());
    }
    r
}

impl AppRegistry {
    /// The entries under the given ids, each looked up in the registry.
    fn entries_for_ids<'a>(&'a self, ids: &Vec<&str>) -> (r: Vec<&'a AppEntry>)
        requires
            forall|j: int|
                0 <= j < ids.deep_view().len() ==> has_app(
                    self.apps_view(),
                    #[trigger] ids.deep_view()[j],
                ),
        ensures
            r@.len() == ids.deep_view().len(),
            forall|j: int|
                0 <= j < r@.len() ==> *(#[trigger] r@[j]) == app_of(
                    self.apps_view(),
                    ids.deep_view()[j],
                ) && (r@[j]).id@ == ids.deep_view()[j] && has_app(
                    self.apps_view(),
                    ids.deep_view()[j],
                ),
    {
        let mut r: Vec<&'a AppEntry> = Vec::new();
        let mut i: usize = 0;
        while i < ids.len()
            invariant
                i <= ids@.len(),
                ids.deep_view().len() == ids@.len(),
                forall|j: int|
                    0 <= j < ids.deep_view().len() ==> has_app(
                        self.apps_view(),
                        #[trigger] ids.deep_view()[j],
                    ),
                r@.len() == i,
                forall|j: int|
                    0 <= j < i ==> *(#[trigger] r@[j]) == app_of(
                        self.apps_view(),
                        ids.deep_view()[j],
                    ) && (r@[j]).id@ == ids.deep_view()[j],
            decreases ids@.len() - i,
        {
            proof {
                assert(ids.deep_view()[i as int] == ids@[i as int]@);
            }
            match self.find_app(ids[i]) {
                Some(k) => {
                    proof {
                        lemma_app_index(self.apps_view(), ids.deep_view()[i as int]);
                    }
                    r.push(&self.apps[k]);
                },
                None => {
                    proof {
                        assert(false);
                    }
                },
            }
            i = i + 1;
        }
        r
    }

    /// The applications declaring `mime`: exact declarations first in
    /// registration order, then `maintype/*` wildcard declarations, each
    /// application once at its first position.
    pub fn apps_for_mime(&self, mime: &str) -> (r: Vec<&AppEntry>)
        requires
            self.wf(),
        ensures
            r@.len() == mime_query_ids(self.apps_view(), mime@).len(),
            forall|j: int|
                0 <= j < r@.len() ==> *(#[trigger] r@[j]) == app_of(
                    self.apps_view(),
                    mime_query_ids(self.apps_view(), mime@)[j],
                ) && (r@[j]).id@ == mime_query_ids(self.apps_view(), mime@)[j] && has_app(
                    self.apps_view(),
                    (r@[j]).id@,
                ),
    {
        let mc = crate::strutil::str_chars(mime);
        let slash = crate::strutil::find_char(&mc, '/');
        let ghost exact = mime_bucket(self.apps@, mime@);
        let ghost wild = if crate::strutil::find_ch(mime@, '/') < mime@.len() {
            mime_bucket(self.apps@, wildcard_of(mime@))
        } else {
            Seq::<Seq<char>>::empty()
        };
        let ghost whole = exact + wild;
        let mut ids: Vec<&str> = Vec::new();
        proof {
            assert(whole.subrange(0, 0) =~= Seq::<Seq<char>>::empty());
            assert(ids.deep_view() =~= Seq::<Seq<char>>::empty());
            assert(list_or_empty(self.by_mime.map_view(), mime@) == exact);
        }
        match self.by_mime.get(mime) {
            Some(b) => {
                crate::mimeapps::push_missing(&mut ids, b, Ghost(whole), Ghost(0));
            },
            None => {
                proof {
                    assert(exact =~= Seq::<Seq<char>>::empty());
                }
            },
        }
        proof {
            assert(whole.subrange(0, exact.len() as int) =~= exact);
        }
        if slash < mc.len() {
            let mut pat = crate::strutil::sub_chars(&mc, 0, slash);
            pat.push('/');
            pat.push('*');
            proof {
                reveal_strlit("/*");
                assert(pat@ =~= wildcard_of(mime@));
            }
            let pats = crate::strutil::chars_string(&pat);
            proof {
                assert(list_or_empty(self.by_mime.map_view(), wildcard_of(mime@)) == wild);
            }
            match self.by_mime.get(pats.as_str()) {
                Some(b) => {
                    crate::mimeapps::push_missing(
                        &mut ids,
                        b,
                        Ghost(whole),
                        Ghost(exact.len() as int),
                    );
                },
                None => {
                    proof {
                        assert(wild =~= Seq::<Seq<char>>::empty());
                        assert(whole =~= exact);
                    }
                },
            }
        } else {
            proof {
                assert(wild =~= Seq::<Seq<char>>::empty());
                assert(whole =~= exact);
            }
        }
        proof {
            assert(whole.subrange(0, whole.len() as int) =~= whole);
            assert(ids.deep_view() == dedup_first(whole));
            assert(dedup_first(whole) == mime_query_ids(self.apps@, mime@));
            lemma_dedup_first_members(whole);
            lemma_mime_bucket_ids(self.apps@, mime@);
            lemma_mime_bucket_ids(self.apps@, wildcard_of(mime@));
            assert forall|j: int| 0 <= j < ids.deep_view().len() implies has_app(
                self.apps_view(),
                #[trigger] ids.deep_view()[j],
            ) by {
                assert(whole.contains(ids.deep_view()[j]));
                let k = choose|k: int| 0 <= k < whole.len() && whole[k] == ids.deep_view()[j];
                if k < exact.len() {
                    assert(exact[k] == whole[k]);
                } else {
                    assert(wild[k - exact.len()] == whole[k]);
                }
            }
        }
        self.entries_for_ids(&ids)
    }

    /// The applications declaring `category`, compared without regard to
    /// ASCII case, in registration order.
    pub fn apps_for_category(&self, category: &str) -> (r: Vec<&AppEntry>)
        requires
            self.wf(),
        ensures
            r@.len() == cat_bucket(self.apps_view(), lower(category@)).len(),
            forall|j: int|
                0 <= j < r@.len() ==> *(#[trigger] r@[j]) == app_of(
                    self.apps_view(),
                    cat_bucket(self.apps_view(), lower(category@))[j],
                ) && (r@[j]).id@ == cat_bucket(self.apps_view(), lower(category@))[j] && has_app(
                    self.apps_view(),
                    (r@[j]).id@,
                ),
    {
        let lc = crate::strutil::chars_string(
            &crate::strutil::lower_chars(&crate::strutil::str_chars(category)),
        );
        let ghost bucket = cat_bucket(self.apps@, lower(category@));
        proof {
            assert(list_or_empty(self.by_category.map_view(), lower(category@)) == bucket);
        }
        let ids: Vec<&str> = match self.by_category.get(lc.as_str()) {
            Some(b) => str_refs(b),
            None => {
                let e: Vec<&str> = Vec::new();
                proof {
                    assert(bucket =~= Seq::<Seq<char>>::empty());
                    assert(e.deep_view() =~= Seq::<Seq<char>>::empty());
                }
                e
            },
        };
        proof {
            lemma_cat_bucket_ids(self.apps@, lower(category@));
        }
        self.entries_for_ids(&ids)
    }

    /// The applications of a category group: every application turned up
    /// by one of the category's primary MIME types or desktop categories,
    /// each once, sorted by case-insensitive display name with ties broken
    /// by id.
    pub fn apps_for_app_category(&self, category: &AppCategory) -> (r: Vec<&AppEntry>)
        requires
            self.wf(),
        ensures
            entries_from(self.apps_view(), r@),
            distinct_result(r@),
            forall|i: int|
                0 <= i < r@.len() ==> in_group(self.apps_view(), *category, (#[trigger] r@[i]).id@),
            forall|id: Seq<char>|
                #[trigger] in_group(self.apps_view(), *category, id) ==> holds_id(r@, id),
            forall|i: int, j: int|
                0 <= i < j < r@.len() ==> entry_le(*(#[trigger] r@[i]), *(#[trigger] r@[j])),
    {
        let ghost apps = self.apps_view();
        let mimes = category.primary_mime_types();
        let cats = category.desktop_categories();
        let ghost msv = mimes.deep_view();
        let ghost csv = cats.deep_view();
        let mut collected: Vec<&AppEntry> = Vec::new();
        let mut mi: usize = 0;
        proof {
            assert(msv.subrange(0, 0) =~= Seq::<Seq<char>>::empty());
            assert(csv.subrange(0, 0) =~= Seq::<Seq<char>>::empty());
        }
        while mi < mimes.len()
            invariant
                mi <= mimes@.len(),
                msv == mimes.deep_view(),
                msv.len() == mimes@.len(),
                self.wf(),
                apps == self.apps_view(),
                entries_from(apps, collected@),
                distinct_result(collected@),
                forall|id: Seq<char>|
                    #[trigger] holds_id(collected@, id) == in_lists(
                        apps,
                        msv.subrange(0, mi as int),
                        Seq::<Seq<char>>::empty(),
                        id,
                    ),
            decreases mimes@.len() - mi,
        {
            proof {
                assert(mimes.deep_view()[mi as int] == mimes@[mi as int]@);
            }
            let sub = self.apps_for_mime(mimes[mi]);
            let ghost qids = mime_query_ids(apps, msv[mi as int]);
            let mut k: usize = 0;
            let ghost prev = collected@;
            while k < sub.len()
                invariant
                    k <= sub@.len(),
                    self.wf(),
                    apps == self.apps_view(),
                    sub@.len() == qids.len(),
                    forall|j: int|
                        0 <= j < sub@.len() ==> *(#[trigger] sub@[j]) == app_of(apps, qids[j]) && (
                        sub@[j]).id@ == qids[j] && has_app(apps, (sub@[j]).id@),
                    entries_from(apps, collected@),
                    distinct_result(collected@),
                    forall|id: Seq<char>|
                        #[trigger] holds_id(collected@, id) == (holds_id(prev, id) || (
                        exists|j: int| 0 <= j < k && qids[j] == id)),
                decreases sub@.len() - k,
            {
                let ghost oldc = collected@;
                if !contains_id(&collected, sub[k].id.as_str()) {
                    collected.push(sub[k]);
                    proof {
                        assert(collected@ =~= oldc.push(sub@[k as int]));
                        assert forall|id: Seq<char>| #[trigger] holds_id(collected@, id) == (
                        holds_id(prev, id) || (exists|j: int| 0 <= j < k + 1 && qids[j] == id)) by {
                            if holds_id(collected@, id) {
                                let w = choose|w: int|
                                    0 <= w < collected@.len() && (#[trigger] collected@[w]).id@
                                        == id;
                                if w < oldc.len() {
                                    assert(holds_id(oldc, id));
                                } else {
                                    assert(qids[k as int] == id);
                                }
                            }
                            if holds_id(prev, id) || (exists|j: int|
                                0 <= j < k + 1 && qids[j] == id) {
                                if holds_id(oldc, id) {
                                    let w = choose|w: int|
                                        0 <= w < oldc.len() && (#[trigger] oldc[w]).id@ == id;
                                    assert(collected@[w].id@ == id);
                                } else {
                                    assert(qids[k as int] == id);
                                    assert(collected@[oldc.len() as int].id@ == id);
                                }
                            }
                        }
                    }
                } else {
                    proof {
                        assert forall|id: Seq<char>| #[trigger] holds_id(collected@, id) == (
                        holds_id(prev, id) || (exists|j: int| 0 <= j < k + 1 && qids[j] == id)) by {
                            if exists|j: int| 0 <= j < k + 1 && qids[j] == id {
                                let j = choose|j: int| 0 <= j < k + 1 && qids[j] == id;
                                if j == k {
                                    assert(holds_id(collected@, (sub@[k as int]).id@));
                                }
                            }
                        }
                    }
                }
                k = k + 1;
            }
            mi = mi + 1;
            proof {
                assert forall|id: Seq<char>| #[trigger] holds_id(collected@, id) == in_lists(
                    apps,
                    msv.subrange(0, mi as int),
                    Seq::<Seq<char>>::empty(),
                    id,
                ) by {
                    let cur = msv.subrange(0, mi as int);
                    let pv = msv.subrange(0, mi - 1);
                    assert(cur[mi - 1] == msv[mi - 1]);
                    if holds_id(collected@, id) {
                        if holds_id(prev, id) {
                            assert(in_lists(apps, pv, Seq::<Seq<char>>::empty(), id));
                            let w = choose|w: int|
                                0 <= w < pv.len() && (#[trigger] mime_query_ids(apps, pv[w])).contains(id);
                            assert(cur[w] == pv[w]);
                        } else {
                            let j = choose|j: int| 0 <= j < sub@.len() && qids[j] == id;
                            assert(mime_query_ids(apps, cur[mi - 1]).contains(id));
                        }
                    }
                    if in_lists(apps, cur, Seq::<Seq<char>>::empty(), id) {
                        let w = choose|w: int|
                            0 <= w < cur.len() && (#[trigger] mime_query_ids(apps, cur[w])).contains(id);
                        if w < mi - 1 {
                            assert(pv[w] == cur[w]);
                            assert(in_lists(apps, pv, Seq::<Seq<char>>::empty(), id));
                        } else {
                            let j = choose|j: int| 0 <= j < qids.len() && qids[j] == id;
                        }
                    }
                }
            }
        }
        proof {
            assert(msv.subrange(0, msv.len() as int) =~= msv);
        }
        let ghost after_mimes = collected@;
        let mut ci: usize = 0;
        while ci < cats.len()
            invariant
                ci <= cats@.len(),
                csv == cats.deep_view(),
                csv.len() == cats@.len(),
                msv == mimes.deep_view(),
                self.wf(),
                apps == self.apps_view(),
                entries_from(apps, collected@),
                distinct_result(collected@),
                forall|id: Seq<char>|
                    #[trigger] holds_id(collected@, id) == in_lists(
                        apps,
                        msv,
                        csv.subrange(0, ci as int),
                        id,
                    ),
            decreases cats@.len() - ci,
        {
            proof {
                assert(cats.deep_view()[ci as int] == cats@[ci as int]@);
            }
            let sub = self.apps_for_category(cats[ci]);
            let ghost qids = cat_bucket(apps, lower(csv[ci as int]));
            let mut k: usize = 0;
            let ghost prev = collected@;
            while k < sub.len()
                invariant
                    k <= sub@.len(),
                    self.wf(),
                    apps == self.apps_view(),
                    sub@.len() == qids.len(),
                    forall|j: int|
                        0 <= j < sub@.len() ==> *(#[trigger] sub@[j]) == app_of(apps, qids[j]) && (
                        sub@[j]).id@ == qids[j] && has_app(apps, (sub@[j]).id@),
                    entries_from(apps, collected@),
                    distinct_result(collected@),
                    forall|id: Seq<char>|
                        #[trigger] holds_id(collected@, id) == (holds_id(prev, id) || (
                        exists|j: int| 0 <= j < k && qids[j] == id)),
                decreases sub@.len() - k,
            {
                let ghost oldc = collected@;
                if !contains_id(&collected, sub[k].id.as_str()) {
                    collected.push(sub[k]);
                    proof {
                        assert(collected@ =~= oldc.push(sub@[k as int]));
                        assert forall|id: Seq<char>| #[trigger] holds_id(collected@, id) == (
                        holds_id(prev, id) || (exists|j: int| 0 <= j < k + 1 && qids[j] == id)) by {
                            if holds_id(collected@, id) {
                                let w = choose|w: int|
                                    0 <= w < collected@.len() && (#[trigger] collected@[w]).id@
                                        == id;
                                if w < oldc.len() {
                                    assert(holds_id(oldc, id));
                                } else {
                                    assert(qids[k as int] == id);
                                }
                            }
                            if holds_id(prev, id) || (exists|j: int|
                                0 <= j < k + 1 && qids[j] == id) {
                                if holds_id(oldc, id) {
                                    let w = choose|w: int|
                                        0 <= w < oldc.len() && (#[trigger] oldc[w]).id@ == id;
                                    assert(collected@[w].id@ == id);
                                } else {
                                    assert(qids[k as int] == id);
                                    assert(collected@[oldc.len() as int].id@ == id);
                                }
                            }
                        }
                    }
                } else {
                    proof {
                        assert forall|id: Seq<char>| #[trigger] holds_id(collected@, id) == (
                        holds_id(prev, id) || (exists|j: int| 0 <= j < k + 1 && qids[j] == id)) by {
                            if exists|j: int| 0 <= j < k + 1 && qids[j] == id {
                                let j = choose|j: int| 0 <= j < k + 1 && qids[j] == id;
                                if j == k {
                                    assert(holds_id(collected@, (sub@[k as int]).id@));
                                }
                            }
                        }
                    }
                }
                k = k + 1;
            }
            ci = ci + 1;
            proof {
                assert forall|id: Seq<char>| #[trigger] holds_id(collected@, id) == in_lists(
                    apps,
                    msv,
                    csv.subrange(0, ci as int),
                    id,
                ) by {
                    let cur = csv.subrange(0, ci as int);
                    let pv = csv.subrange(0, ci - 1);
                    assert(cur[ci - 1] == csv[ci - 1]);
                    if holds_id(collected@, id) {
                        if holds_id(prev, id) {
                            assert(in_lists(apps, msv, pv, id));
                            if exists|w: int|
                                0 <= w < pv.len() && (#[trigger] cat_bucket(apps, lower(pv[w]))).contains(id) {
                                let w = choose|w: int|
                                    0 <= w < pv.len() && (#[trigger] cat_bucket(apps, lower(pv[w]))).contains(id);
                                assert(cur[w] == pv[w]);
                            }
                        } else {
                            let j = choose|j: int| 0 <= j < sub@.len() && qids[j] == id;
                            assert(cat_bucket(apps, lower(cur[ci - 1])).contains(id));
                        }
                    }
                    if in_lists(apps, msv, cur, id) {
                        if exists|w: int|
                            0 <= w < cur.len() && (#[trigger] cat_bucket(apps, lower(cur[w]))).contains(id) {
                            let w = choose|w: int|
                                0 <= w < cur.len() && (#[trigger] cat_bucket(apps, lower(cur[w]))).contains(id);
                            if w < ci - 1 {
                                assert(pv[w] == cur[w]);
                                assert(in_lists(apps, msv, pv, id));
                            } else {
                                let j = choose|j: int| 0 <= j < qids.len() && qids[j] == id;
                            }
                        }
                    }
                }
            }
        }
        proof {
            assert(csv.subrange(0, csv.len() as int) =~= csv);
        }
        let sorted = sort_by_entry_le(collected);
        proof {
            lemma_perm_result(apps, collected@, sorted@);
            lemma_perm_distinct(apps, collected@, sorted@);
            assert forall|i: int| 0 <= i < sorted@.len() implies in_group(
                apps,
                *category,
                (#[trigger] sorted@[i]).id@,
            ) by {
                assert(holds_id(sorted@, sorted@[i].id@));
                assert(holds_id(collected@, sorted@[i].id@));
            }
            assert forall|id: Seq<char>| #[trigger] in_group(apps, *category, id) implies holds_id(
                sorted@,
                id,
            ) by {
                assert(in_lists(apps, msv, csv, id));
                assert(holds_id(collected@, id));
            }
        }
        sorted
    }

    /// The applications whose name, generic name or comment contains the
    /// query, without regard to ASCII case, sorted by name.
    pub fn search(&self, query: &str) -> (r: Vec<&AppEntry>)
        requires
            self.wf(),
        ensures
            entries_from(self.apps_view(), r@),
            distinct_result(r@),
            forall|i: int|
                0 <= i < r@.len() ==> matches_query(*(#[trigger] r@[i]), lower(query@)),
            forall|j: int|
                0 <= j < self.apps_view().len() && matches_query(
                    #[trigger] self.apps_view()[j],
                    lower(query@),
                ) ==> holds_id(r@, self.apps_view()[j].id@),
            forall|i: int, j: int|
                0 <= i < j < r@.len() ==> crate::strutil::lex_le(
                    (*(#[trigger] r@[i])).name@,
                    (*(#[trigger] r@[j])).name@,
                ),
    {
        let ghost apps = self.apps_view();
        let qc = crate::strutil::lower_chars(&crate::strutil::str_chars(query));
        let mut collected: Vec<&AppEntry> = Vec::new();
        let mut j: usize = 0;
        while j < self.apps.len()
            invariant
                j <= self.apps@.len(),
                apps == self.apps_view(),
                self.wf(),
                qc@ == lower(query@),
                entries_from(apps, collected@),
                distinct_result(collected@),
                forall|i: int|
                    0 <= i < collected@.len() ==> matches_query(
                        *(#[trigger] collected@[i]),
                        lower(query@),
                    ),
                forall|i: int|
                    0 <= i < j && matches_query(#[trigger] apps[i], lower(query@)) ==> holds_id(
                        collected@,
                        apps[i].id@,
                    ),
                forall|i: int|
                    0 <= i < collected@.len() ==> exists|w: int|
                        0 <= w < j && apps[w] == *(#[trigger] collected@[i]),
            decreases self.apps@.len() - j,
        {
            let e = &self.apps[j];
            let matched = entry_matches_query(e, &qc);
            if matched {
                let ghost oldc = collected@;
                collected.push(e);
                proof {
                    lemma_app_index_is(apps, apps[j as int].id@, j as int);
                    assert forall|a: int, b: int| 0 <= a < b < collected@.len() implies (
                    #[trigger] collected@[a]).id@ != (#[trigger] collected@[b]).id@ by {
                        if b == collected@.len() - 1 {
                            let w = choose|w: int|
                                0 <= w < j && apps[w] == *(#[trigger] oldc[a]);
                            assert(apps[w].id@ != apps[j as int].id@);
                        }
                    }
                    assert forall|i: int|
                        0 <= i < j + 1 && matches_query(#[trigger] apps[i], lower(query@)) implies holds_id(
                        collected@,
                        apps[i].id@,
                    ) by {
                        if i < j {
                            if holds_id(oldc, apps[i].id@) {
                                let w = choose|w: int|
                                    0 <= w < oldc.len() && (#[trigger] oldc[w]).id@ == apps[i].id@;
                                assert(collected@[w].id@ == apps[i].id@);
                            }
                        } else {
                            assert(collected@[collected@.len() - 1].id@ == apps[j as int].id@);
                        }
                    }
                }
            } else {
                proof {
                    assert forall|i: int|
                        0 <= i < j + 1 && matches_query(#[trigger] apps[i], lower(query@)) implies holds_id(
                        collected@,
                        apps[i].id@,
                    ) by {}
                }
            }
            j = j + 1;
        }
        let sorted = sort_by_name(collected);
        proof {
            lemma_perm_result(apps, collected@, sorted@);
            lemma_perm_distinct(apps, collected@, sorted@);
            assert forall|i: int| 0 <= i < sorted@.len() implies matches_query(
                *(#[trigger] sorted@[i]),
                lower(query@),
            ) by {
                broadcast use vstd::seq_lib::group_to_multiset_ensures;

                assert(sorted@.contains(sorted@[i]));
                assert(sorted@.to_multiset().count(sorted@[i]) > 0);
                assert(collected@.to_multiset().count(sorted@[i]) > 0);
                assert(collected@.contains(sorted@[i]));
                let w = choose|w: int|
                    0 <= w < collected@.len() && collected@[w] == sorted@[i];
            }
        }
        sorted
    }

    /// Every registered application, sorted by name.
    pub fn all_apps(&self) -> (r: Vec<&AppEntry>)
        requires
            self.wf(),
        ensures
            entries_from(self.apps_view(), r@),
            distinct_result(r@),
            r@.len() == self.apps_view().len(),
            forall|j: int|
                0 <= j < self.apps_view().len() ==> holds_id(r@, (#[trigger] self.apps_view()[j]).id@),
            forall|i: int, j: int|
                0 <= i < j < r@.len() ==> crate::strutil::lex_le(
                    (*(#[trigger] r@[i])).name@,
                    (*(#[trigger] r@[j])).name@,
                ),
    {
        let ghost apps = self.apps_view();
        let mut collected: Vec<&AppEntry> = Vec::new();
        let mut j: usize = 0;
        while j < self.apps.len()
            invariant
                j <= self.apps@.len(),
                apps == self.apps_view(),
                self.wf(),
                collected@.len() == j,
                entries_from(apps, collected@),
                distinct_result(collected@),
                forall|i: int| 0 <= i < j ==> *(#[trigger] collected@[i]) == apps[i],
            decreases self.apps@.len() - j,
        {
            collected.push(&self.apps[j]);
            proof {
                lemma_app_index_is(apps, apps[j as int].id@, j as int);
            }
            j = j + 1;
        }
        let sorted = sort_by_name(collected);
        proof {
            lemma_perm_result(apps, collected@, sorted@);
            lemma_perm_distinct(apps, collected@, sorted@);
            broadcast use vstd::seq_lib::group_to_multiset_ensures;

            assert(sorted@.to_multiset().len() == collected@.to_multiset().len());
            assert forall|j2: int| 0 <= j2 < apps.len() implies holds_id(
                sorted@,
                (#[trigger] apps[j2]).id@,
            ) by {
                assert(collected@[j2].id@ == apps[j2].id@);
                assert(holds_id(collected@, apps[j2].id@));
            }
        }
        sorted
    }
}

/// Whether the lowercased query occurs in the entry's searchable text.
fn entry_matches_query(e: &AppEntry, q: &Vec<char>) -> (r: bool)
    ensures
        r == matches_query(*e, q@),
{
    let name_l = crate::strutil::lower_chars(&crate::strutil::str_chars(e.name.as_str()));
    if crate::strutil::chars_contain(&name_l, q) {
        return true;
    }
    let in_generic = match &e.generic_name {
        Some(g) => {
            let gl = crate::strutil::lower_chars(&crate::strutil::str_chars(g.as_str()));
            crate::strutil::chars_contain(&gl, q)
        },
        None => false,
    };
    if in_generic {
        return true;
    }
    match &e.comment {
        Some(cm) => {
            let cl = crate::strutil::lower_chars(&crate::strutil::str_chars(cm.as_str()));
            crate::strutil::chars_contain(&cl, q)
        },
        None => false,
    }
}


/// A hidden or `NoDisplay` descriptor never appears in a query result:
/// every result entry of a well-formed registry is a registered
/// application, and none of those is hidden.
pub proof fn lemma_results_visible(apps: Seq<AppEntry>, r: Seq<&AppEntry>)
    requires
        all_visible(apps),
        entries_from(apps, r),
    ensures
        forall|i: int|
            0 <= i < r.len() ==> !(#[trigger] r[i]).no_display && !r[i].hidden,
{
    assert forall|i: int| 0 <= i < r.len() implies !(#[trigger] r[i]).no_display
        && !r[i].hidden by {
        lemma_app_index(apps, r[i].id@);
        assert(*r[i] == apps[app_index(apps, r[i].id@)]);
    }
}


} // verus!
