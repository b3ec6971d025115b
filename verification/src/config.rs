use vstd::prelude::*;

pub mod sys;

verus! {

/// How to launch an application.
#[derive(Debug, Clone, PartialEq)]
pub struct Appattr {
    /// The working directory to launch it in.
    pub dir: String,
    /// The program to run.
    pub executable: String,
    /// How often it was launched.
    pub freq: u32,
    /// The arguments of the program, as one text.
    pub args: String,
    /// What the arguments stand for, where the desktop entry says so.
    pub arg_hint: Option<String>,
}

/// The known applications, each under its name; no name occurs twice (`names_unique`). They
/// are kept in a vector with that invariant, as vstd proves nothing of a `HashMap` keyed by
/// `String`; `upsert` does what the map's entry-or-insert did.
pub struct Info {
    pub apps: Vec<(String, Appattr)>,
}

/// The position of the application named `name` in `apps`, if any.
pub open spec fn name_index(apps: Seq<(String, Appattr)>, name: Seq<char>) -> Option<int> {
    if exists|i: int| 0 <= i < apps.len() && #[trigger] apps[i].0@ == name {
        Some(choose|i: int| 0 <= i < apps.len() && #[trigger] apps[i].0@ == name)
    } else {
        None
    }
}

impl Info {
    /// No name occurs twice.
    pub open spec fn names_unique(&self) -> bool {
        forall|i: int, j: int|
            0 <= i < j < self.apps@.len() ==> #[trigger] self.apps@[i].0@ != #[trigger] self.apps@[j].0@
    }

    /// Whether no name occurs twice.
    pub fn has_unique_names(&self) -> (r: bool)
        ensures
            r == self.names_unique(),
    {
        let n = self.apps.len();
        for j in 0..n
            invariant
                n == self.apps@.len(),
                forall|a: int, b: int|
                    0 <= a < b < j ==> #[trigger] self.apps@[a].0@ != #[trigger] self.apps@[b].0@,
        {
            for i in 0..j
                invariant
                    n == self.apps@.len(),
                    j < n,
                    forall|a: int, b: int|
                        0 <= a < b < j ==> #[trigger] self.apps@[a].0@ != #[trigger] self.apps@[b].0@,
                    forall|a: int| 0 <= a < i ==> #[trigger] self.apps@[a].0@ != self.apps@[j as int].0@,
            {
                if self.apps[i].0 == self.apps[j].0 {
                    return false;
                }
            }
        }
        true
    }

    /// Stores `app` under `name`: it takes the place of the application of that name where
    /// there is one, and is appended otherwise.
    pub fn upsert(&mut self, name: String, app: Appattr)
        requires
            old(self).names_unique(),
        ensures
            final(self).names_unique(),
            final(self)@ == old(self)@.insert(name@, app),
            match name_index(old(self).apps@, name@) {
                Some(i) => final(self).apps@ == old(self).apps@.update(i, (name, app)),
                None => final(self).apps@ == old(self).apps@.push((name, app)),
            },
    {
        let n = self.apps.len();
        for i in 0..n
            invariant
                n == self.apps@.len(),
                *self == *old(self),
                self.names_unique(),
                forall|j: int| 0 <= j < i ==> #[trigger] self.apps@[j].0@ != name@,
        {
            if self.apps[i].0 == name {
                proof {
                    let k = choose|k: int| 0 <= k < self.apps@.len() && #[trigger] self.apps@[k].0@ == name@;
                    if k != i {
                        if k < i {
                        } else {
                            assert(self.apps@[i as int].0@ != self.apps@[k].0@);
                        }
                    }
                }
                self.apps.set(i, (name, app));
                proof {
                    self.lemma_view_after_update(*old(self), i as int);
                }
                return ;
            }
        }
        let ghost before = *self;
        self.apps.push((name, app));
        proof {
            assert(name_index(old(self).apps@, name@) is None);
            assert(self.names_unique()) by {
                assert forall|i: int, j: int|
                    0 <= i < j < self.apps@.len() implies #[trigger] self.apps@[i].0@
                    != #[trigger] self.apps@[j].0@ by {
                    if j == n {
                        assert(before.apps@[i].0@ != name@);
                    } else {
                        assert(before.apps@[i] == self.apps@[i]);
                        assert(before.apps@[j] == self.apps@[j]);
                    }
                }
            }
            assert forall|k: Seq<char>| #[trigger] self@.contains_key(k) == old(self)@.insert(
                name@,
                app,
            ).contains_key(k) by {
                if k != name@ && self@.contains_key(k) {
                    let i = choose|i: int| 0 <= i < self.apps@.len() && #[trigger] self.apps@[i].0@ == k;
                    assert(self.apps@[i] == before.apps@[i]);
                }
                if k != name@ && old(self)@.contains_key(k) {
                    let i = choose|i: int| 0 <= i < before.apps@.len() && #[trigger] before.apps@[i].0@ == k;
                    assert(self.apps@[i] == before.apps@[i]);
                }
                if k == name@ {
                    assert(self.apps@[n as int].0@ == name@);
                }
            }
            assert forall|k: Seq<char>| #[trigger] self@.contains_key(k) implies self@[k] == old(self)@.insert(
                name@,
                app,
            )[k] by {
                let i = choose|i: int| 0 <= i < self.apps@.len() && #[trigger] self.apps@[i].0@ == k;
                if k == name@ {
                    if i != n {
                        assert(self.apps@[i] == before.apps@[i]);
                    }
                } else {
                    assert(self.apps@[i] == before.apps@[i]);
                    let i2 = choose|i2: int| 0 <= i2 < before.apps@.len() && #[trigger] before.apps@[i2].0@ == k;
                    assert(self.apps@[i2] == before.apps@[i2]);
                    if i != i2 {
                        if i < i2 {
                            assert(self.apps@[i].0@ != self.apps@[i2].0@);
                        } else {
                            assert(self.apps@[i2].0@ != self.apps@[i].0@);
                        }
                    }
                }
            }
            assert(self@ =~= old(self)@.insert(name@, app));
        }
    }

    proof fn lemma_view_after_update(self, before: Info, i: int)
        requires
            before.names_unique(),
            0 <= i < before.apps@.len(),
            self.apps@ == before.apps@.update(i, self.apps@[i]),
            self.apps@[i].0@ == before.apps@[i].0@,
        ensures
            self.names_unique(),
            self@ == before@.insert(self.apps@[i].0@, self.apps@[i].1),
            name_index(before.apps@, self.apps@[i].0@) == Some(i),
    {
        let name = self.apps@[i].0@;
        assert forall|a: int, b: int|
            0 <= a < b < self.apps@.len() implies #[trigger] self.apps@[a].0@ != #[trigger] self.apps@[b].0@ by {
            assert(before.apps@[a].0@ != before.apps@[b].0@);
        }
        let k0 = choose|k: int| 0 <= k < before.apps@.len() && #[trigger] before.apps@[k].0@ == name;
        if k0 != i {
            if k0 < i {
                assert(before.apps@[k0].0@ != before.apps@[i].0@);
            } else {
                assert(before.apps@[i].0@ != before.apps@[k0].0@);
            }
        }
        assert forall|k: Seq<char>| #[trigger] self@.contains_key(k) == before@.insert(
            name,
            self.apps@[i].1,
        ).contains_key(k) by {
            if self@.contains_key(k) {
                let j = choose|j: int| 0 <= j < self.apps@.len() && #[trigger] self.apps@[j].0@ == k;
                if j != i {
                    assert(before.apps@[j] == self.apps@[j]);
                }
            }
            if before@.contains_key(k) {
                let j = choose|j: int| 0 <= j < before.apps@.len() && #[trigger] before.apps@[j].0@ == k;
                if j != i {
                    assert(before.apps@[j] == self.apps@[j]);
                }
            }
        }
        assert forall|k: Seq<char>| #[trigger] self@.contains_key(k) implies self@[k] == before@.insert(
            name,
            self.apps@[i].1,
        )[k] by {
            let j = choose|j: int| 0 <= j < self.apps@.len() && #[trigger] self.apps@[j].0@ == k;
            if k == name {
                if j != i {
                    if j < i {
                        assert(self.apps@[j].0@ != self.apps@[i].0@);
                    } else {
                        assert(self.apps@[i].0@ != self.apps@[j].0@);
                    }
                }
            } else {
                let j2 = choose|j2: int| 0 <= j2 < before.apps@.len() && #[trigger] before.apps@[j2].0@ == k;
                assert(before.apps@[j2] == self.apps@[j2]);
                if j != j2 {
                    if j < j2 {
                        assert(self.apps@[j].0@ != self.apps@[j2].0@);
                    } else {
                        assert(self.apps@[j2].0@ != self.apps@[j].0@);
                    }
                }
            }
        }
        assert(self@ =~= before@.insert(name, self.apps@[i].1));
    }
}

impl View for Info {
    type V = Map<Seq<char>, Appattr>;

    /// Each name with the application stored under it.
    open spec fn view(&self) -> Map<Seq<char>, Appattr> {
        Map::new(
            |k: Seq<char>| exists|i: int| 0 <= i < self.apps@.len() && #[trigger] self.apps@[i].0@ == k,
            |k: Seq<char>|
                self.apps@[choose|i: int| 0 <= i < self.apps@.len() && #[trigger] self.apps@[i].0@ == k].1,
        )
    }
}

impl Default for Info {
    /// No applications.
    fn default() -> (r: Self)
        ensures
            r.apps@.len() == 0,
            r.names_unique(),
    {
        Info { apps: Vec::new() }
    }
}

} // verus!
