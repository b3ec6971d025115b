use std::collections::HashMap;

use vstd::prelude::*;
use vstd::string::StringExecFns;

use crate::config::{Appattr, Info};
use crate::trie::{
    Trie, fuzzy_match, lemma_prefix_hits_characterized, lemma_prefix_hits_complete,
    lemma_prefix_hits_sound, lowercase,
};

verus! {

/// An application that the extension offers, under the id it is offered by.
#[derive(Debug)]
pub struct App {
    pub name: String,
    pub id: u32,
    pub attr: Appattr,
}

/// One entry of a list of search results, as the host shows it.
#[derive(Debug, Clone, PartialEq)]
pub struct DisplayItem {
    pub obj_id: u32,
    pub name: String,
    pub hint: Option<String>,
}

impl App {
    /// The entry that shows this application: its id and its name, with no hint.
    pub fn to_display(&self) -> (r: DisplayItem)
        ensures
            r.obj_id == self.id,
            r.name@ == self.name@,
            r.hint is None,
    {
        DisplayItem { obj_id: self.id, name: self.name.clone(), hint: None }
    }
}

/// The address the host is told to reach the extension at: `addr` over plain HTTP.
pub fn callback_address(addr: &str) -> (r: String)
    ensures
        r@ == seq!['h', 't', 't', 'p', ':', '/', '/'] + addr@,
{
    let mut r = "http://".to_owned();
    proof {
        reveal_strlit("http://");
    }
    r.append(addr);
    proof {
        assert(r@ =~= seq!['h', 't', 't', 'p', ':', '/', '/'] + addr@);
    }
    r
}

/// A copy of `a`.
fn copy_attr(a: &Appattr) -> (r: Appattr)
    ensures
        r == *a,
{
    let hint = match &a.arg_hint {
        Some(h) => Some(h.clone()),
        None => None,
    };
    Appattr {
        dir: a.dir.clone(),
        executable: a.executable.clone(),
        freq: a.freq,
        args: a.args.clone(),
        arg_hint: hint,
    }
}

/// The words an index built from `apps` holds: each application's lower-cased name, with
/// the ids (positions in `apps`) of the applications of that name in increasing order.
pub open spec fn index_words(apps: Seq<(String, Appattr)>) -> Map<Seq<char>, Seq<u32>>
    decreases apps.len(),
{
    if apps.len() == 0 {
        Map::empty()
    } else {
        let m = index_words(apps.drop_last());
        let k = lowercase(apps.last().0@);
        let before = if m.contains_key(k) {
            m[k]
        } else {
            Seq::empty()
        };
        m.insert(k, before.push((apps.len() - 1) as u32))
    }
}

/// The applications an index built from `apps` holds: the one at each position, under
/// that position as its id.
pub open spec fn index_apps(apps: Seq<(String, Appattr)>) -> Map<u32, App> {
    Map::new(
        |id: u32| (id as int) < apps.len(),
        |id: u32| App { name: apps[id as int].0, id, attr: apps[id as int].1 },
    )
}

/// The values `m` stores under `k`, the empty sequence where there are none.
pub open spec fn before_stored(m: Map<Seq<char>, Seq<u32>>, k: Seq<char>) -> Seq<u32> {
    if m.contains_key(k) {
        m[k]
    } else {
        Seq::empty()
    }
}

/// The applications the extension offers, found by id and by a prefix of their name.
pub struct AppIndex {
    trie: Trie<u32>,
    by_id: HashMap<u32, App>,
}

impl AppIndex {
    /// The names, lower-cased, with the ids of the applications that bear them.
    pub closed spec fn words(&self) -> Map<Seq<char>, Seq<u32>> {
        self.trie@
    }

    /// The applications by id.
    pub closed spec fn apps(&self) -> Map<u32, App> {
        self.by_id@
    }

    /// The ids that a search for `content` finds, in the order it finds them.
    pub closed spec fn hits(&self, content: Seq<char>) -> Seq<u32> {
        self.trie.prefix_hits(self.trie.key_for(content))
    }

    /// Every id under a name belongs to an application, and every application is stored
    /// under its own id.
    pub closed spec fn wf(&self) -> bool {
        &&& self.trie.wf()
        &&& self.trie.ignores_case()
        &&& self.trie.miss_limit() == 3
        &&& forall|id: u32| #[trigger] self.by_id@.contains_key(id) ==> self.by_id@[id].id == id
        &&& forall|id: u32|
            #[trigger] self.by_id@.contains_key(id) ==> self.trie@.contains_key(lowercase(self.by_id@[id].name@))
                && self.trie@[lowercase(self.by_id@[id].name@)].contains(id)
        &&& forall|w: Seq<char>, j: int|
            #![trigger self.trie@[w][j]]
            self.trie@.contains_key(w) && 0 <= j < self.trie@[w].len()
                ==> self.by_id@.contains_key(self.trie@[w][j])
    }

    /// Numbers the applications of `info` in order, from 0, and indexes them by number and
    /// by name.
    pub fn new(info: &Info) -> (r: AppIndex)
        requires
            info.apps@.len() <= u32::MAX as int + 1,
        ensures
            r.wf(),
            r.words() == index_words(info.apps@),
            r.apps() == index_apps(info.apps@),
            forall|id: u32| #[trigger] r.apps().contains_key(id) <==> (id as int) < info.apps@.len(),
            forall|id: u32|
                (id as int) < info.apps@.len() ==> {
                    &&& #[trigger] r.apps()[id].id == id
                    &&& r.apps()[id].name == info.apps@[id as int].0
                    &&& r.apps()[id].attr == info.apps@[id as int].1
                },
    {
        let mut trie: Trie<u32> = Trie::new();
        let mut by_id: HashMap<u32, App> = HashMap::new();
        let n = info.apps.len();
        proof {
            assert(info.apps@.take(0) =~= Seq::<(String, Appattr)>::empty());
            assert(by_id@ =~= index_apps(info.apps@.take(0)));
        }
        for i in 0..n
            invariant
                n == info.apps@.len(),
                n <= u32::MAX as int + 1,
                trie.wf(),
                trie.ignores_case(),
                trie.miss_limit() == 3,
                trie@ == index_words(info.apps@.take(i as int)),
                forall|id: u32|
                    #[trigger] by_id@.contains_key(id) ==> trie@.contains_key(lowercase(by_id@[id].name@))
                        && trie@[lowercase(by_id@[id].name@)].contains(id),
                by_id@ == index_apps(info.apps@.take(i as int)),
                forall|w: Seq<char>, j: int|
                    #![trigger trie@[w][j]]
                    trie@.contains_key(w) && 0 <= j < trie@[w].len() ==> trie@[w][j] < i,
        {
            let id = i as u32;
            let name = &info.apps[i].0;
            let app = App { name: name.clone(), id, attr: copy_attr(&info.apps[i].1) };
            let ghost before = trie@;
            let ghost before_ids = by_id@;
            by_id.insert(id, app);
            trie.insert(name.clone(), id);
            proof {
                let t = info.apps@.take(i + 1);
                assert(t.drop_last() =~= info.apps@.take(i as int));
                assert(t.last() == info.apps@[i as int]);
                assert(trie@ == index_words(t));
                assert(by_id@ =~= index_apps(t));
                assert forall|w: Seq<char>, j: int|
                    #![trigger trie@[w][j]]
                    trie@.contains_key(w) && 0 <= j < trie@[w].len() implies trie@[w][j] < i + 1 by {
                    if before.contains_key(w) && j < before[w].len() {
                        assert(trie@[w][j] == before[w][j]);
                    }
                }
                assert forall|d: u32|
                    #[trigger] by_id@.contains_key(d) implies trie@.contains_key(lowercase(by_id@[d].name@))
                        && trie@[lowercase(by_id@[d].name@)].contains(d) by {
                    let k = lowercase(by_id@[d].name@);
                    if d == id {
                        let s = before_stored(before, k);
                        assert(trie@[k] == s.push(id));
                        assert(trie@[k][s.len() as int] == id);
                    } else {
                        assert(before_ids.contains_key(d));
                        let j = choose|j: int| 0 <= j < before[k].len() && before[k][j] == d;
                        if k == lowercase(name@) {
                            assert(trie@[k][j] == before[k][j]);
                        } else {
                            assert(trie@[k] == before[k]);
                        }
                    }
                }
            }
        }
        proof {
            assert(info.apps@.take(n as int) =~= info.apps@);
        }
        let r = AppIndex { trie, by_id };
        assert(r.wf()) by {
            assert forall|w: Seq<char>, j: int|
                #![trigger r.trie@[w][j]]
                r.trie@.contains_key(w) && 0 <= j < r.trie@[w].len() implies r.by_id@.contains_key(
                r.trie@[w][j],
            ) by {
                assert(r.trie@[w][j] < n);
            }
        }
        r
    }

    /// The entries for the applications whose names a fuzzy prefix search for `content`
    /// finds, in the order of `hits`.
    pub fn search(&self, content: String) -> (r: Vec<DisplayItem>)
        requires
            self.wf(),
        ensures
            r@.len() == self.hits(content@).len(),
            forall|j: int|
                0 <= j < r@.len() ==> {
                    let id = #[trigger] self.hits(content@)[j];
                    &&& self.apps().contains_key(id)
                    &&& r@[j].obj_id == id
                    &&& r@[j].name@ == self.apps()[id].name@
                    &&& r@[j].hint is None
                },
    {
        let ghost key = self.trie.key_for(content@);
        let ids = self.trie.search_prefix(content);
        let mut list: Vec<DisplayItem> = Vec::new();
        let n = ids.len();
        for j in 0..n
            invariant
                n == ids@.len(),
                ids@.unref() == self.trie.prefix_hits(key),
                self.wf(),
                list@.len() == j,
                forall|k: int|
                    0 <= k < j ==> {
                        let id = #[trigger] self.trie.prefix_hits(key)[k];
                        &&& self.by_id@.contains_key(id)
                        &&& list@[k].obj_id == id
                        &&& list@[k].name@ == self.by_id@[id].name@
                        &&& list@[k].hint is None
                    },
        {
            let id = *ids[j];
            proof {
                assert(id == self.trie.prefix_hits(key)[j as int]);
                lemma_prefix_hits_sound(&self.trie, key, j as int);
                let w = choose|w: Seq<char>|
                    #[trigger] self.trie@.contains_key(w) && self.trie@[w].contains(id);
                let k = choose|k: int| 0 <= k < self.trie@[w].len() && self.trie@[w][k] == id;
                assert(self.by_id@.contains_key(self.trie@[w][k]));
            }
            match self.by_id.get(&id) {
                Some(app) => {
                    let ghost prev = list@;
                    list.push(app.to_display());
                    proof {
                        assert forall|k: int| 0 <= k < j implies list@[k] == prev[k] by {}
                        assert(self.trie.prefix_hits(key)[j as int] == id);
                        assert(*app == self.by_id@[id]);
                        assert(list@[j as int].obj_id == id);
                        assert(list@[j as int].name@ == self.by_id@[id].name@);
                        assert(self.by_id@.contains_key(id));
                    }
                },
                None => {
                    proof {
                        assert(false);
                    }
                },
            }
        }
        list
    }

    /// The application with the id `id`, if there is one.
    pub fn get(&self, id: u32) -> (r: Option<&App>)
        ensures
            r is Some <==> self.apps().contains_key(id),
            r matches Some(a) ==> *a == self.apps()[id],
    {
        self.by_id.get(&id)
    }
}

/// The application an index holds under each id is the configuration entry at that
/// position: its name and exactly its attributes, under that id.
pub proof fn lemma_index_apps_are_entries(apps: Seq<(String, Appattr)>, id: u32)
    requires
        (id as int) < apps.len(),
    ensures
        index_apps(apps).contains_key(id),
        index_apps(apps)[id].id == id,
        index_apps(apps)[id].name == apps[id as int].0,
        index_apps(apps)[id].attr == apps[id as int].1,
        index_apps(apps)[id].attr.dir == apps[id as int].1.dir,
        index_apps(apps)[id].attr.executable == apps[id as int].1.executable,
{
}

/// The index invariant: every id under a name belongs to an application; every application
/// is stored under its own id and its id is stored under its lower-cased name; and a search
/// for its name finds it.
pub proof fn lemma_index_invariant(index: &AppIndex)
    requires
        index.wf(),
    ensures
        forall|w: Seq<char>, j: int|
            #![trigger index.words()[w][j]]
            index.words().contains_key(w) && 0 <= j < index.words()[w].len()
                ==> index.apps().contains_key(index.words()[w][j]),
        forall|id: u32|
            #[trigger] index.apps().contains_key(id) ==> {
                &&& index.apps()[id].id == id
                &&& index.words().contains_key(lowercase(index.apps()[id].name@))
                &&& index.words()[lowercase(index.apps()[id].name@)].contains(id)
                &&& index.hits(index.apps()[id].name@).contains(id)
            },
{
    assert forall|id: u32| #[trigger] index.apps().contains_key(id) implies index.hits(
        index.apps()[id].name@,
    ).contains(id) by {
        lemma_search_finds_own_name(index, id);
    }
}

/// A search for an application's own name finds it.
pub proof fn lemma_search_finds_own_name(index: &AppIndex, id: u32)
    requires
        index.wf(),
        index.apps().contains_key(id),
    ensures
        index.hits(index.apps()[id].name@).contains(id),
{
    let w = lowercase(index.by_id@[id].name@);
    let t = &index.trie;
    let j = choose|j: int| 0 <= j < t@[w].len() && t@[w][j] == id;
    assert(w.is_prefix_of(w));
    lemma_prefix_hits_complete(t, w, w, j);
}

/// A search finds only indexed applications.
pub proof fn lemma_search_hits_are_apps(index: &AppIndex, content: Seq<char>, j: int)
    requires
        index.wf(),
        0 <= j < index.hits(content).len(),
    ensures
        index.apps().contains_key(index.hits(content)[j]),
{
    let t = &index.trie;
    let p = t.key_for(content);
    lemma_prefix_hits_sound(t, p, j);
    let id = t.prefix_hits(p)[j];
    let w = choose|w: Seq<char>| #[trigger] t@.contains_key(w) && t@[w].contains(id);
    let k = choose|k: int| 0 <= k < t@[w].len() && t@[w][k] == id;
    assert(index.by_id@.contains_key(t@[w][k]));
}

/// What a search for `content` finds, as a set: the ids stored under the names that the
/// lower-cased `content` matches into, with at most three characters of a name going
/// unmatched in a row before each matched character.
pub proof fn lemma_search_characterized(index: &AppIndex, content: Seq<char>, id: u32)
    requires
        index.wf(),
    ensures
        index.hits(content).contains(id) <==> exists|w: Seq<char>|
            #[trigger] index.words().contains_key(w) && index.words()[w].contains(id)
                && fuzzy_match(lowercase(content), w, 0, 3),
{
    let t = &index.trie;
    let p = lowercase(content);
    assert(t.key_for(content) == p);
    lemma_prefix_hits_characterized(t, p, id);
    if index.hits(content).contains(id) {
        let w = choose|w: Seq<char>|
            #[trigger] t@.contains_key(w) && t@[w].contains(id) && fuzzy_match(p, w, 0, t.miss_limit());
        assert(index.words().contains_key(w) && index.words()[w].contains(id) && fuzzy_match(p, w, 0, 3));
    }
    if exists|w: Seq<char>|
        #[trigger] index.words().contains_key(w) && index.words()[w].contains(id) && fuzzy_match(p, w, 0, 3) {
        let w = choose|w: Seq<char>|
            #[trigger] index.words().contains_key(w) && index.words()[w].contains(id) && fuzzy_match(p, w, 0, 3);
        assert(t@.contains_key(w) && t@[w].contains(id) && fuzzy_match(p, w, 0, t.miss_limit()));
    }
}

} // verus!
