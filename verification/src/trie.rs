use vstd::prelude::*;

use crate::text::chars_of;

verus! {

/// The order of trie keys: characters compare by their code point, as `char`'s `Ord` does.
pub open spec fn char_lt(a: char, b: char) -> bool {
    (a as int) < (b as int)
}

/// The order in which the trie visits words: `a` comes before `b` when `a` is a proper
/// prefix of `b`, or when at the first position where they differ `a` has the smaller
/// character.
pub open spec fn precedes(a: Seq<char>, b: Seq<char>) -> bool {
    ||| (a.len() < b.len() && a == b.take(a.len() as int))
    ||| exists|i: int|
        #![trigger a[i], b[i]]
        0 <= i < a.len() && i < b.len() && a.take(i) == b.take(i) && char_lt(a[i], b[i])
}

/// `w` is the first word, in the order of `precedes`, among the words of `m` that begin
/// with `p`.
pub open spec fn is_first_completion<T>(m: Map<Seq<char>, Seq<T>>, p: Seq<char>, w: Seq<char>) -> bool {
    &&& m.contains_key(w)
    &&& p.is_prefix_of(w)
    &&& forall|w2: Seq<char>|
        #![trigger m.contains_key(w2)]
        m.contains_key(w2) && p.is_prefix_of(w2) && w2 != w ==> precedes(w, w2)
}

/// `m` holds some word that begins with `p`.
pub open spec fn has_completion<T>(m: Map<Seq<char>, Seq<T>>, p: Seq<char>) -> bool {
    exists|w: Seq<char>| #[trigger] m.contains_key(w) && p.is_prefix_of(w)
}

proof fn lemma_precedes_common_prefix(p: Seq<char>, a: Seq<char>, b: Seq<char>)
    requires
        precedes(a, b),
    ensures
        precedes(p + a, p + b),
{
    if a.len() < b.len() && a == b.take(a.len() as int) {
        assert(p + a =~= (p + b).take((p + a).len() as int));
    } else {
        let i = choose|i: int|
            #![trigger a[i], b[i]]
            0 <= i < a.len() && i < b.len() && a.take(i) == b.take(i) && char_lt(a[i], b[i]);
        let k = p.len() + i;
        assert((p + a).take(k) =~= p + a.take(i));
        assert((p + b).take(k) =~= p + b.take(i));
        assert((p + a)[k] == a[i]);
        assert((p + b)[k] == b[i]);
    }
}

proof fn lemma_precedes_first_char(k1: char, a: Seq<char>, k2: char, b: Seq<char>)
    requires
        char_lt(k1, k2),
    ensures
        precedes(seq![k1] + a, seq![k2] + b),
{
    let x = seq![k1] + a;
    let y = seq![k2] + b;
    assert(x[0] == k1 && y[0] == k2);
    assert(x.take(0) =~= y.take(0));
}

proof fn lemma_precedes_empty(b: Seq<char>)
    requires
        b.len() > 0,
    ensures
        precedes(Seq::empty(), b),
{
    assert(Seq::<char>::empty() =~= b.take(0));
}

/// The characters `p` can be matched, in order, into the word `w`, letting at most `limit`
/// characters of `w` go unmatched in a row before each matched one, `miss` of them having
/// gone unmatched already; the characters of `w` after the last matched one are free.
pub open spec fn fuzzy_match(p: Seq<char>, w: Seq<char>, miss: nat, limit: nat) -> bool
    decreases w.len(),
{
    if p.len() == 0 {
        true
    } else if w.len() == 0 {
        false
    } else {
        (w[0] == p[0] && fuzzy_match(p.drop_first(), w.drop_first(), 0, limit))
            || (miss < limit && fuzzy_match(p, w.drop_first(), miss + 1, limit))
    }
}

/// Matching a longer text is harder: where `p2` matches into `w`, so does every prefix `p` of it.
pub proof fn lemma_fuzzy_match_prefix(p: Seq<char>, p2: Seq<char>, w: Seq<char>, miss: nat, limit: nat)
    requires
        p.is_prefix_of(p2),
        fuzzy_match(p2, w, miss, limit),
    ensures
        fuzzy_match(p, w, miss, limit),
    decreases w.len(),
{
    if p.len() > 0 {
        assert(p[0] == p2[0]);
        assert(p.drop_first().is_prefix_of(p2.drop_first())) by {
            assert(p.drop_first() =~= p2.drop_first().subrange(0, p.drop_first().len() as int));
        }
        if w[0] == p2[0] && fuzzy_match(p2.drop_first(), w.drop_first(), 0, limit) {
            lemma_fuzzy_match_prefix(p.drop_first(), p2.drop_first(), w.drop_first(), 0, limit);
        } else {
            lemma_fuzzy_match_prefix(p, p2, w.drop_first(), miss + 1, limit);
        }
    }
}

/// How many times `x` occurs in `s`.
pub open spec fn occurrences<T>(s: Seq<T>, x: T) -> nat
    decreases s.len(),
{
    if s.len() == 0 {
        0
    } else {
        occurrences(s.drop_last(), x) + (if s.last() == x {
            1nat
        } else {
            0nat
        })
    }
}

/// Occurrences add up over a concatenation.
pub proof fn lemma_occurrences_concat<T>(a: Seq<T>, b: Seq<T>, x: T)
    ensures
        occurrences(a + b, x) == occurrences(a, x) + occurrences(b, x),
    decreases b.len(),
{
    if b.len() == 0 {
        assert(a + b =~= a);
    } else {
        assert((a + b).drop_last() =~= a + b.drop_last());
        assert((a + b).last() == b.last());
        lemma_occurrences_concat(a, b.drop_last(), x);
    }
}

/// Name for what `str::to_lowercase` returns on a string: the Unicode lowercase mapping
/// of every character of it, as the standard library defines it.
pub uninterp spec fn lowercase(s: Seq<char>) -> Seq<char>;

/// The lower-case form of a Latin-1 character (U+0000 to U+00FF) under Unicode's lowercase
/// mapping: the capitals `A`-`Z`, `À`-`Ö` and `Ø`-`Þ` map to the letter 0x20 above them;
/// every other Latin-1 character is its own lower-case form.
pub open spec fn latin1_lower(c: char) -> char {
    let n = c as int;
    if (0x41 <= n <= 0x5A) || (0xC0 <= n <= 0xD6) || (0xD8 <= n <= 0xDE) {
        (n + 0x20) as char
    } else {
        c
    }
}

/// Every character of `s` is a Latin-1 character.
pub open spec fn is_latin1(s: Seq<char>) -> bool {
    forall|i: int| 0 <= i < s.len() ==> (#[trigger] s[i] as int) <= 0xFF
}

/// `s` with each character replaced by its Latin-1 lower-case form.
pub open spec fn latin1_lowercase(s: Seq<char>) -> Seq<char> {
    s.map_values(|c: char| latin1_lower(c))
}

/// Calls `str::to_lowercase`. The contract claims that the result is a function of the
/// characters of `s` alone (the name `lowercase`), and, for a text of Latin-1 characters
/// only, that it is the text with each character mapped to its lower-case form by Unicode's
/// lowercase mapping (`latin1_lower`); outside Latin-1 the mapping is not stated.
#[verifier::external_body]
fn to_lowercase(s: &str) -> (r: String)
    ensures
        r@ == lowercase(s@),
        is_latin1(s@) ==> r@ == latin1_lowercase(s@),
{
    s.to_lowercase()
}

/// A trie from words to the values stored under them. Words can be looked up by their first
/// completion, or by a prefix that tolerates a few extra characters.
#[derive(Debug)]
pub struct Trie<T> {
    root: Node<T>,
    miss_count: usize,
    extra_count: usize,
    ignore_case: bool,
}

/// A node of the trie: its children ordered by key, and the values stored for the word
/// that leads to it. The children are kept in a vector in increasing key order (`keys_sorted`),
/// which gives what an ordered map would: each key once, visited in increasing order. vstd
/// states no order for `char` keys of a `BTreeMap`, so that order is stated here instead.
#[derive(Debug)]
struct Node<T> {
    children: Vec<(char, Node<T>)>,
    values: Vec<T>,
}

impl<T> Node<T> {
    /// The children's keys strictly increase, so no key occurs twice.
    spec fn keys_sorted(self) -> bool {
        forall|i: int, j: int|
            0 <= i < j < self.children@.len() ==> char_lt(
                #[trigger] self.children@[i].0,
                #[trigger] self.children@[j].0,
            )
    }

    spec fn wf(self) -> bool
        decreases self,
    {
        &&& self.keys_sorted()
        &&& forall|i: int|
            #![trigger self.children@[i]]
            0 <= i < self.children@.len() ==> self.children@[i].1.wf()
    }

    /// The child reached by the key `c`, if there is one.
    spec fn child(self, c: char) -> Option<Node<T>> {
        if exists|i: int| 0 <= i < self.children@.len() && #[trigger] self.children@[i].0 == c {
            let i = choose|i: int| 0 <= i < self.children@.len() && #[trigger] self.children@[i].0 == c;
            Some(self.children@[i].1)
        } else {
            None
        }
    }

    /// The node reached from this one by the characters of `w`.
    spec fn lookup(self, w: Seq<char>) -> Option<Node<T>>
        decreases w.len(),
    {
        if w.len() == 0 {
            Some(self)
        } else {
            match self.child(w[0]) {
                Some(n) => n.lookup(w.drop_first()),
                None => None,
            }
        }
    }

    /// The values stored for the word `w`, below this node.
    spec fn values_at(self, w: Seq<char>) -> Seq<T> {
        match self.lookup(w) {
            Some(n) => n.values@,
            None => Seq::empty(),
        }
    }

    /// A child is smaller than its parent, so recursion into it terminates.
    proof fn lemma_child_decreases(self, j: int)
        requires
            0 <= j < self.children@.len(),
        ensures
            decreases_to!(self => self.children@[j].1),
    {
        assert(decreases_to!(self => self.children));
        assert(decreases_to!(self.children => self.children@));
        assert(decreases_to!(self.children@ => self.children@[j]));
    }

    proof fn lemma_child_at(self, i: int)
        requires
            self.keys_sorted(),
            0 <= i < self.children@.len(),
        ensures
            self.child(self.children@[i].0) == Some(self.children@[i].1),
    {
        let c = self.children@[i].0;
        assert(exists|j: int| 0 <= j < self.children@.len() && #[trigger] self.children@[j].0 == c);
        let j = choose|j: int| 0 <= j < self.children@.len() && #[trigger] self.children@[j].0 == c;
        if j < i {
            assert(char_lt(self.children@[j].0, self.children@[i].0));
        } else if i < j {
            assert(char_lt(self.children@[i].0, self.children@[j].0));
        }
    }

    proof fn lemma_values_at_unfold(self, w: Seq<char>)
        ensures
            w.len() == 0 ==> self.values_at(w) == self.values@,
            w.len() > 0 ==> self.values_at(w) == match self.child(w[0]) {
                Some(n) => n.values_at(w.drop_first()),
                None => Seq::empty(),
            },
    {
    }

    proof fn lemma_empty_values_at(self, w: Seq<char>)
        requires
            self.children@.len() == 0,
            self.values@.len() == 0,
        ensures
            self.values_at(w) == Seq::<T>::empty(),
    {
    }

    fn empty() -> (n: Node<T>)
        ensures
            n.wf(),
            n.children@.len() == 0,
            n.values@.len() == 0,
            forall|w: Seq<char>| #[trigger] n.values_at(w) == Seq::<T>::empty(),
    {
        let n = Node { children: Vec::new(), values: Vec::new() };
        assert forall|w: Seq<char>| #[trigger] n.values_at(w) == Seq::<T>::empty() by {
            n.lemma_empty_values_at(w);
        }
        n
    }

    /// Where the key `c` stands among the children: its index if present, else the index
    /// at which it would be inserted.
    fn find_slot(&self, c: char) -> (r: (bool, usize))
        requires
            self.keys_sorted(),
        ensures
            r.1 <= self.children@.len(),
            r.0 ==> r.1 < self.children@.len() && self.children@[r.1 as int].0 == c,
            !r.0 ==> forall|j: int| 0 <= j < r.1 ==> char_lt(#[trigger] self.children@[j].0, c),
            !r.0 ==> forall|j: int|
                r.1 <= j < self.children@.len() ==> char_lt(c, #[trigger] self.children@[j].0),
    {
        let mut i: usize = 0;
        while i < self.children.len()
            invariant
                i <= self.children@.len(),
                self.keys_sorted(),
                forall|j: int| 0 <= j < i ==> char_lt(#[trigger] self.children@[j].0, c),
            decreases self.children@.len() - i,
        {
            let k = self.children[i].0;
            if k == c {
                return (true, i);
            }
            if c < k {
                assert forall|j: int| i <= j < self.children@.len() implies char_lt(
                    c,
                    #[trigger] self.children@[j].0,
                ) by {
                    if i < j {
                        assert(char_lt(self.children@[i as int].0, self.children@[j].0));
                    }
                }
                return (false, i);
            }
            i += 1;
        }
        (false, i)
    }

    /// Stores `value` for the word `key[pos..]` below this node.
    fn insert_at(&mut self, key: &Vec<char>, pos: usize, value: T)
        requires
            old(self).wf(),
            pos <= key@.len(),
        ensures
            final(self).wf(),
            forall|w: Seq<char>| #[trigger]
                final(self).values_at(w) == if w == key@.skip(pos as int) {
                    old(self).values_at(w).push(value)
                } else {
                    old(self).values_at(w)
                },
            final(self).grown_by(*old(self), key@.skip(pos as int)),
        decreases key@.len() - pos,
    {
        if pos == key.len() {
            self.values.push(value);
            assert forall|w: Seq<char>| #[trigger]
                final(self).values_at(w) == if w == key@.skip(pos as int) {
                    old(self).values_at(w).push(value)
                } else {
                    old(self).values_at(w)
                } by {
                old(self).lemma_values_at_unfold(w);
                self.lemma_values_at_unfold(w);
                if w.len() == 0 {
                    assert(key@.skip(pos as int) =~= w);
                } else {
                    assert(self.children@ == old(self).children@);
                    assert(self.child(w[0]) == old(self).child(w[0]));
                }
            }
            assert(key@.skip(pos as int).len() == 0);
            assert(old(self).values@.is_prefix_of(self.values@)) by {
                assert(old(self).values@ =~= self.values@.subrange(0, old(self).values@.len() as int));
            }
            return ;
        }
        let c = key[pos];
        let (found, idx) = self.find_slot(c);
        if !found {
            let fresh = Node::empty();
            let ghost before = *self;
            self.children.insert(idx, (c, fresh));
            proof {
                Node::lemma_insert_child(before, *self, idx as int, c, fresh);
            }
        } else {
            proof {
                assert(*self == *old(self));
                assert(old(self).children@[idx as int].1.wf());
            }
        }
        let ghost mid = *self;
        proof {
            mid.lemma_child_at(idx as int);
            assert(mid.children@[idx as int].1.wf());
        }
        self.children[idx].1.insert_at(key, pos + 1, value);
        proof {
            let x = self.children@[idx as int].1;
            let ks = key@.skip(pos as int);
            assert(ks[0] == c);
            assert(ks.drop_first() =~= key@.skip(pos + 1));
            if found {
                assert(self.children@ == old(self).children@.update(idx as int, (ks[0], x)));
                assert(old(self).children@[idx as int].0 == ks[0]);
            } else {
                assert(self.children@ =~= old(self).children@.insert(idx as int, (ks[0], x)));
            }
            assert(self.values@ == old(self).values@);
            assert(self.grown_by(*old(self), ks));
            assert(self.children@ == mid.children@.update(idx as int, (c, x)));
            Node::lemma_update_child(mid, *self, idx as int, x);
            let oldc = mid.children@[idx as int].1;
            assert(found ==> old(self).child(c) == Some(oldc));
            assert(!found ==> old(self).child(c) is None);
            assert forall|d: char| d != c implies #[trigger] self.child(d) == old(self).child(d) by {
            }
            assert forall|w: Seq<char>| #[trigger]
                self.values_at(w) == if w == key@.skip(pos as int) {
                    old(self).values_at(w).push(value)
                } else {
                    old(self).values_at(w)
                } by {
                old(self).lemma_values_at_unfold(w);
                self.lemma_values_at_unfold(w);
                if w.len() == 0 {
                    assert(w != key@.skip(pos as int));
                    assert(self.values@ == old(self).values@);
                } else if w[0] != c {
                    assert(w != key@.skip(pos as int));
                    assert(self.child(w[0]) == old(self).child(w[0]));
                } else {
                    let u = w.drop_first();
                    assert(key@.skip(pos as int) =~= seq![c] + key@.skip(pos + 1));
                    assert(w =~= seq![c] + u);
                    assert(key@.skip(pos as int).drop_first() =~= key@.skip(pos + 1));
                    assert((w == key@.skip(pos as int)) == (u == key@.skip(pos + 1)));
                    if !found {
                        oldc.lemma_empty_values_at(u);
                    }
                }
            }
        }
    }

    proof fn lemma_lookup_wf(self, w: Seq<char>)
        requires
            self.wf(),
            self.lookup(w) is Some,
        ensures
            self.lookup(w)->0.wf(),
        decreases w.len(),
    {
        if w.len() > 0 {
            self.lemma_child_some(w[0]);
            let j = choose|j: int|
                0 <= j < self.children@.len() && #[trigger] self.children@[j] == (w[0], self.child(w[0])->0);
            assert(self.children@[j].1.wf());
            self.children@[j].1.lemma_lookup_wf(w.drop_first());
        }
    }

    proof fn lemma_lookup_append(self, a: Seq<char>, b: Seq<char>)
        ensures
            self.lookup(a + b) == match self.lookup(a) {
                Some(m) => m.lookup(b),
                None => None,
            },
        decreases a.len(),
    {
        if a.len() == 0 {
            assert(a + b =~= b);
        } else {
            assert((a + b)[0] == a[0]);
            assert((a + b).drop_first() =~= a.drop_first() + b);
            match self.child(a[0]) {
                Some(n) => {
                    n.lemma_lookup_append(a.drop_first(), b);
                },
                None => {},
            }
        }
    }

    proof fn lemma_child_some(self, d: char)
        requires
            self.keys_sorted(),
            self.child(d) is Some,
        ensures
            exists|j: int|
                0 <= j < self.children@.len() && #[trigger] self.children@[j] == (d, self.child(d)->0),
    {
        assert(exists|i: int| 0 <= i < self.children@.len() && #[trigger] self.children@[i].0 == d);
        let j = choose|i: int| 0 <= i < self.children@.len() && #[trigger] self.children@[i].0 == d;
        self.lemma_child_at(j);
        assert(self.children@[j] == (d, self.child(d)->0));
    }

    /// The child under the key `c`, if there is one.
    fn get_child(&self, c: char) -> (r: Option<&Node<T>>)
        requires
            self.wf(),
        ensures
            r is None <==> self.child(c) is None,
            r matches Some(n) ==> self.child(c) == Some(*n) && n.wf(),
    {
        let (found, idx) = self.find_slot(c);
        if found {
            proof {
                self.lemma_child_at(idx as int);
            }
            Some(&self.children[idx].1)
        } else {
            proof {
                if self.child(c) is Some {
                    self.lemma_child_some(c);
                    let j = choose|j: int|
                        0 <= j < self.children@.len() && #[trigger] self.children@[j] == (c, self.child(c)->0);
                    if j < idx {
                        assert(char_lt(self.children@[j].0, c));
                    } else {
                        assert(char_lt(c, self.children@[j].0));
                    }
                }
            }
            None
        }
    }

    /// The values of the first word, in the order of `precedes`, stored at or below this
    /// node, with that word relative to this node.
    fn first_values(&self) -> (r: (Option<&Vec<T>>, Ghost<Seq<char>>))
        requires
            self.wf(),
        ensures
            r.0 is None <==> forall|u: Seq<char>| #[trigger] self.values_at(u).len() == 0,
            r.0 matches Some(v) ==> {
                &&& v@ == self.values_at(r.1@)
                &&& v@.len() > 0
                &&& forall|u: Seq<char>|
                    #[trigger] self.values_at(u).len() > 0 && u != r.1@ ==> precedes(r.1@, u)
            },
        decreases self,
    {
        if self.values.len() > 0 {
            proof {
                self.lemma_values_at_unfold(Seq::<char>::empty());
                assert forall|u: Seq<char>|
                    #[trigger] self.values_at(u).len() > 0 && u != Seq::<char>::empty() implies precedes(
                    Seq::<char>::empty(),
                    u,
                ) by {
                    if u.len() == 0 {
                        assert(u =~= Seq::<char>::empty());
                    }
                    lemma_precedes_empty(u);
                }
            }
            return (Some(&self.values), Ghost(Seq::empty()));
        }
        let n = self.children.len();
        for i in 0..n
            invariant
                n == self.children@.len(),
                self.wf(),
                self.values@.len() == 0,
                forall|j: int, u: Seq<char>|
                    0 <= j < i ==> #[trigger] self.children@[j].1.values_at(u).len() == 0,
        {
            proof {
                assert(self.children@[i as int].1.wf());
                self.lemma_child_decreases(i as int);
            }
            let (found, Ghost(u)) = self.children[i].1.first_values();
            match found {
                Some(v) => {
                    let ghost k = self.children@[i as int].0;
                    let ghost c = self.children@[i as int].1;
                    let ghost w = seq![k] + u;
                    proof {
                        self.lemma_child_at(i as int);
                        assert(w[0] == k);
                        assert(w.drop_first() =~= u);
                        self.lemma_values_at_unfold(w);
                        assert forall|u2: Seq<char>|
                            #[trigger] self.values_at(u2).len() > 0 && u2 != w implies precedes(w, u2) by {
                            self.lemma_values_at_unfold(u2);
                            let d = u2[0];
                            self.lemma_child_some(d);
                            let j = choose|j: int|
                                0 <= j < self.children@.len() && #[trigger] self.children@[j] == (d, self.child(d)->0);
                            let rest = u2.drop_first();
                            assert(u2 =~= seq![d] + rest);
                            if j < i {
                                assert(self.children@[j].1.values_at(rest).len() == 0);
                            } else if j == i {
                                assert(rest != u);
                                lemma_precedes_common_prefix(seq![k], u, rest);
                            } else {
                                assert(char_lt(k, d));
                                lemma_precedes_first_char(k, u, d, rest);
                            }
                        }
                    }
                    return (Some(v), Ghost(w));
                },
                None => {},
            }
        }
        proof {
            assert forall|u: Seq<char>| #[trigger] self.values_at(u).len() == 0 by {
                self.lemma_values_at_unfold(u);
                if u.len() > 0 && self.child(u[0]) is Some {
                    self.lemma_child_some(u[0]);
                    let j = choose|j: int|
                        0 <= j < self.children@.len() && #[trigger] self.children@[j] == (u[0], self.child(u[0])->0);
                    assert(self.children@[j].1.values_at(u.drop_first()).len() == 0);
                }
            }
        }
        (None, Ghost(Seq::empty()))
    }

    /// The values stored at and below this node, in the order the trie visits words: a
    /// node's own values first, then its children's in increasing key order.
    spec fn subtree_values(self) -> Seq<T>
        decreases self, 0nat,
    {
        self.values@ + Self::children_values(self.children@)
    }

    spec fn children_values(ch: Seq<(char, Node<T>)>) -> Seq<T>
        decreases ch, 1nat,
    {
        if ch.len() == 0 {
            Seq::empty()
        } else {
            Self::children_values(ch.subrange(0, ch.len() - 1)) + ch[ch.len() - 1].1.subtree_values()
        }
    }

    /// What a prefix search from this node collects for the characters `rest`, with `miss`
    /// characters of the path already let go unmatched in a row and at most `limit` allowed.
    /// A child whose key is `rest[0]` consumes it and resets the count; any child may also
    /// be passed over while the count is below `limit`. Where `rest` runs out, the whole
    /// subtree's values are collected. Children are taken in decreasing key order, the
    /// matching step before the passing one.
    spec fn hits(self, rest: Seq<char>, miss: nat, limit: nat) -> Seq<T>
        decreases self, 0nat,
    {
        if rest.len() == 0 {
            self.subtree_values()
        } else {
            Self::hits_children(self.children@, rest, miss, limit)
        }
    }

    spec fn hits_children(ch: Seq<(char, Node<T>)>, rest: Seq<char>, miss: nat, limit: nat) -> Seq<T>
        decreases ch, 1nat,
    {
        if ch.len() == 0 || rest.len() == 0 {
            Seq::empty()
        } else {
            let last = ch[ch.len() - 1];
            (if last.0 == rest[0] {
                last.1.hits(rest.drop_first(), 0, limit)
            } else {
                Seq::empty()
            }) + (if miss < limit {
                last.1.hits(rest, miss + 1, limit)
            } else {
                Seq::empty()
            }) + Self::hits_children(ch.subrange(0, ch.len() - 1), rest, miss, limit)
        }
    }

    /// Appends the values of this node's subtree to `out`.
    fn collect_subtree<'a>(&'a self, out: &mut Vec<&'a T>)
        requires
            self.wf(),
        ensures
            final(out)@.unref() == old(out)@.unref() + self.subtree_values(),
        decreases self,
    {
        let ghost start = old(out)@.unref();
        let nv = self.values.len();
        for j in 0..nv
            invariant
                nv == self.values@.len(),
                out@.unref() == start + self.values@.take(j as int),
        {
            let ghost prev = out@;
            out.push(&self.values[j]);
            proof {
                assert(out@.unref() =~= prev.unref().push(self.values@[j as int]));
                assert(self.values@.take(j + 1) =~= self.values@.take(j as int).push(self.values@[j as int]));
            }
        }
        proof {
            assert(self.values@.take(nv as int) =~= self.values@);
            assert(self.children@.take(0) =~= Seq::<(char, Node<T>)>::empty());
        }
        let nc = self.children.len();
        for i in 0..nc
            invariant
                nc == self.children@.len(),
                self.wf(),
                out@.unref() == start + self.values@ + Self::children_values(self.children@.take(i as int)),
        {
            proof {
                assert(self.children@[i as int].1.wf());
                self.lemma_child_decreases(i as int);
            }
            self.children[i].1.collect_subtree(out);
            proof {
                let t = self.children@.take(i + 1);
                assert(t.subrange(0, t.len() - 1) =~= self.children@.take(i as int));
                assert(t[t.len() - 1] == self.children@[i as int]);
            }
        }
        proof {
            assert(self.children@.take(nc as int) =~= self.children@);
        }
    }

    /// Appends to `out` what a prefix search from this node collects for `rest[pos..]`.
    fn collect_hits<'a>(
        &'a self,
        rest: &Vec<char>,
        pos: usize,
        miss: usize,
        limit: usize,
        out: &mut Vec<&'a T>,
    )
        requires
            self.wf(),
            pos <= rest@.len(),
        ensures
            final(out)@.unref() == old(out)@.unref() + self.hits(
                rest@.skip(pos as int),
                miss as nat,
                limit as nat,
            ),
        decreases self,
    {
        if pos == rest.len() {
            proof {
                assert(rest@.skip(pos as int).len() == 0);
            }
            self.collect_subtree(out);
            return ;
        }
        let ghost start = old(out)@.unref();
        let ghost r = rest@.skip(pos as int);
        let c = rest[pos];
        proof {
            assert(r[0] == c);
            assert(r.drop_first() =~= rest@.skip(pos + 1));
        }
        let mut i = self.children.len();
        proof {
            assert(self.children@.take(i as int) =~= self.children@);
        }
        while i > 0
            invariant
                i <= self.children@.len(),
                self.wf(),
                pos < rest.len(),
                r == rest@.skip(pos as int),
                r[0] == c,
                r.drop_first() == rest@.skip(pos + 1),
                start + Self::hits_children(self.children@, r, miss as nat, limit as nat)
                    == out@.unref() + Self::hits_children(
                    self.children@.take(i as int),
                    r,
                    miss as nat,
                    limit as nat,
                ),
            decreases i,
        {
            i -= 1;
            let ghost before = out@.unref();
            proof {
                assert(self.children@[i as int].1.wf());
                self.lemma_child_decreases(i as int);
            }
            if self.children[i].0 == c {
                self.children[i].1.collect_hits(rest, pos + 1, 0, limit, out);
            }
            let ghost mid = out@.unref();
            if miss < limit {
                self.children[i].1.collect_hits(rest, pos, miss + 1, limit, out);
            }
            proof {
                let t = self.children@.take(i + 1);
                assert(t.subrange(0, t.len() - 1) =~= self.children@.take(i as int));
                assert(t[t.len() - 1] == self.children@[i as int]);
                let m = if self.children@[i as int].0 == r[0] {
                    self.children@[i as int].1.hits(r.drop_first(), 0, limit as nat)
                } else {
                    Seq::empty()
                };
                let p = if miss < limit {
                    self.children@[i as int].1.hits(r, (miss + 1) as nat, limit as nat)
                } else {
                    Seq::empty()
                };
                assert(mid =~= before + m);
                assert(out@.unref() =~= before + m + p);
                assert(Self::hits_children(t, r, miss as nat, limit as nat) == m + p
                    + Self::hits_children(self.children@.take(i as int), r, miss as nat, limit as nat));
                assert(out@.unref() + Self::hits_children(self.children@.take(i as int), r, miss as nat, limit as nat)
                    =~= before + Self::hits_children(t, r, miss as nat, limit as nat));
            }
        }
        proof {
            assert(self.children@.take(0) =~= Seq::<(char, Node<T>)>::empty());
            assert(self.children@.take(self.children@.len() as int) =~= self.children@);
            assert(out@.unref() =~= start + Self::hits_children(self.children@, r, miss as nat, limit as nat));
        }
    }

    proof fn lemma_children_values_contains(ch: Seq<(char, Node<T>)>, j: int, x: T)
        requires
            0 <= j < ch.len(),
            ch[j].1.subtree_values().contains(x),
        ensures
            Self::children_values(ch).contains(x),
        decreases ch.len(),
    {
        let init = ch.subrange(0, ch.len() - 1);
        let last = ch[ch.len() - 1].1.subtree_values();
        assert(Self::children_values(ch) == Self::children_values(init) + last);
        if j == ch.len() - 1 {
            let k = choose|k: int| 0 <= k < last.len() && last[k] == x;
            assert((Self::children_values(init) + last)[Self::children_values(init).len() + k] == x);
        } else {
            assert(init[j] == ch[j]);
            Self::lemma_children_values_contains(init, j, x);
            let k = choose|k: int| 0 <= k < Self::children_values(init).len() && Self::children_values(init)[k] == x;
            assert((Self::children_values(init) + last)[k] == x);
        }
    }

    /// Every value stored below this node under `u` is among the subtree's values.
    proof fn lemma_subtree_contains(self, u: Seq<char>, x: T)
        requires
            self.wf(),
            self.values_at(u).contains(x),
        ensures
            self.subtree_values().contains(x),
        decreases u.len(),
    {
        self.lemma_values_at_unfold(u);
        let sv = self.subtree_values();
        if u.len() == 0 {
            let k = choose|k: int| 0 <= k < self.values@.len() && self.values@[k] == x;
            assert(sv[k] == x);
        } else {
            let d = u[0];
            self.lemma_child_some(d);
            let j = choose|j: int|
                0 <= j < self.children@.len() && #[trigger] self.children@[j] == (d, self.child(d)->0);
            assert(self.children@[j].1.wf());
            self.children@[j].1.lemma_subtree_contains(u.drop_first(), x);
            Self::lemma_children_values_contains(self.children@, j, x);
            let cv = Self::children_values(self.children@);
            let k = choose|k: int| 0 <= k < cv.len() && cv[k] == x;
            assert(sv[self.values@.len() + k] == x);
        }
    }

    proof fn lemma_hits_children_contains(ch: Seq<(char, Node<T>)>, r: Seq<char>, miss: nat, limit: nat, j: int, x: T)
        requires
            0 <= j < ch.len(),
            r.len() > 0,
            ch[j].0 == r[0],
            ch[j].1.hits(r.drop_first(), 0, limit).contains(x),
        ensures
            Self::hits_children(ch, r, miss, limit).contains(x),
        decreases ch.len(),
    {
        let init = ch.subrange(0, ch.len() - 1);
        let last = ch[ch.len() - 1];
        let m = if last.0 == r[0] { last.1.hits(r.drop_first(), 0, limit) } else { Seq::empty() };
        let p = if miss < limit { last.1.hits(r, miss + 1, limit) } else { Seq::empty() };
        let rest = Self::hits_children(init, r, miss, limit);
        assert(Self::hits_children(ch, r, miss, limit) == m + p + rest);
        if j == ch.len() - 1 {
            let k = choose|k: int| 0 <= k < m.len() && m[k] == x;
            assert((m + p + rest)[k] == x);
        } else {
            assert(init[j] == ch[j]);
            Self::lemma_hits_children_contains(init, r, miss, limit, j, x);
            let k = choose|k: int| 0 <= k < rest.len() && rest[k] == x;
            assert((m + p + rest)[m.len() + p.len() + k] == x);
        }
    }

    /// A prefix search from this node reaches the node that `p` leads to by exact matching,
    /// so it collects every value of that node's subtree.
    proof fn lemma_hits_contains_exact(self, p: Seq<char>, miss: nat, limit: nat, x: T)
        requires
            self.wf(),
            self.lookup(p) is Some,
            self.lookup(p)->0.subtree_values().contains(x),
        ensures
            self.hits(p, miss, limit).contains(x),
        decreases p.len(),
    {
        if p.len() > 0 {
            let d = p[0];
            self.lemma_child_some(d);
            let j = choose|j: int|
                0 <= j < self.children@.len() && #[trigger] self.children@[j] == (d, self.child(d)->0);
            assert(self.children@[j].1.wf());
            self.children@[j].1.lemma_hits_contains_exact(p.drop_first(), 0, limit, x);
            Self::lemma_hits_children_contains(self.children@, p, miss, limit, j, x);
        }
    }

    proof fn lemma_children_values_member(ch: Seq<(char, Node<T>)>, x: T)
        requires
            Self::children_values(ch).contains(x),
        ensures
            exists|j: int| 0 <= j < ch.len() && (#[trigger] ch[j]).1.subtree_values().contains(x),
        decreases ch.len(),
    {
        let init = ch.subrange(0, ch.len() - 1);
        let last = ch[ch.len() - 1].1.subtree_values();
        let cv = Self::children_values(init);
        assert(Self::children_values(ch) == cv + last);
        let k = choose|k: int| 0 <= k < (cv + last).len() && (cv + last)[k] == x;
        if k < cv.len() {
            assert(cv[k] == x);
            Self::lemma_children_values_member(init, x);
            let j = choose|j: int| 0 <= j < init.len() && (#[trigger] init[j]).1.subtree_values().contains(x);
            assert(ch[j] == init[j]);
        } else {
            assert(last[k - cv.len()] == x);
            assert(ch[ch.len() - 1].1.subtree_values().contains(x));
        }
    }

    proof fn lemma_values_at_child(self, j: int, u: Seq<char>)
        requires
            self.keys_sorted(),
            0 <= j < self.children@.len(),
        ensures
            self.values_at(seq![self.children@[j].0] + u) == self.children@[j].1.values_at(u),
    {
        let w = seq![self.children@[j].0] + u;
        self.lemma_child_at(j);
        self.lemma_values_at_unfold(w);
        assert(w[0] == self.children@[j].0);
        assert(w.drop_first() =~= u);
    }

    /// Every value of this node's subtree is stored below it under some word.
    proof fn lemma_subtree_sound(self, x: T)
        requires
            self.wf(),
            self.subtree_values().contains(x),
        ensures
            exists|u: Seq<char>| #[trigger] self.values_at(u).contains(x),
        decreases self,
    {
        let cv = Self::children_values(self.children@);
        let k = choose|k: int| 0 <= k < self.subtree_values().len() && self.subtree_values()[k] == x;
        if k < self.values@.len() {
            assert(self.values@[k] == x);
            self.lemma_values_at_unfold(Seq::empty());
            assert(self.values_at(Seq::empty()).contains(x));
        } else {
            assert(cv[k - self.values@.len()] == x);
            Self::lemma_children_values_member(self.children@, x);
            let j = choose|j: int|
                0 <= j < self.children@.len() && (#[trigger] self.children@[j]).1.subtree_values().contains(x);
            let c = self.children@[j].1;
            assert(c.wf());
            self.lemma_child_decreases(j);
            c.lemma_subtree_sound(x);
            let u = choose|u: Seq<char>| #[trigger] c.values_at(u).contains(x);
            self.lemma_values_at_child(j, u);
            assert(self.values_at(seq![self.children@[j].0] + u).contains(x));
        }
    }

    proof fn lemma_hits_children_member(ch: Seq<(char, Node<T>)>, r: Seq<char>, miss: nat, limit: nat, x: T)
        requires
            Self::hits_children(ch, r, miss, limit).contains(x),
        ensures
            exists|j: int|
                0 <= j < ch.len() && ({
                    ||| (#[trigger] ch[j]).0 == r[0] && ch[j].1.hits(r.drop_first(), 0, limit).contains(x)
                    ||| miss < limit && ch[j].1.hits(r, miss + 1, limit).contains(x)
                }),
        decreases ch.len(),
    {
        let init = ch.subrange(0, ch.len() - 1);
        let last = ch[ch.len() - 1];
        let m = if last.0 == r[0] { last.1.hits(r.drop_first(), 0, limit) } else { Seq::empty() };
        let p = if miss < limit { last.1.hits(r, miss + 1, limit) } else { Seq::empty() };
        let rest = Self::hits_children(init, r, miss, limit);
        assert(Self::hits_children(ch, r, miss, limit) == m + p + rest);
        let k = choose|k: int| 0 <= k < (m + p + rest).len() && (m + p + rest)[k] == x;
        let jl = ch.len() - 1;
        if k < m.len() {
            assert(m[k] == x);
            assert(ch[jl] == last);
        } else if k < m.len() + p.len() {
            assert(p[k - m.len()] == x);
            assert(ch[jl] == last);
        } else {
            assert(rest[k - m.len() - p.len()] == x);
            Self::lemma_hits_children_member(init, r, miss, limit, x);
            let j = choose|j: int|
                0 <= j < init.len() && ({
                    ||| (#[trigger] init[j]).0 == r[0] && init[j].1.hits(r.drop_first(), 0, limit).contains(x)
                    ||| miss < limit && init[j].1.hits(r, miss + 1, limit).contains(x)
                });
            assert(ch[j] == init[j]);
        }
    }

    /// Every value that a prefix search from this node collects is stored below it under
    /// some word.
    proof fn lemma_hits_sound(self, r: Seq<char>, miss: nat, limit: nat, x: T)
        requires
            self.wf(),
            self.hits(r, miss, limit).contains(x),
        ensures
            exists|u: Seq<char>| #[trigger] self.values_at(u).contains(x) && fuzzy_match(r, u, miss, limit),
        decreases self,
    {
        if r.len() == 0 {
            self.lemma_subtree_sound(x);
            let u = choose|u: Seq<char>| #[trigger] self.values_at(u).contains(x);
            assert(fuzzy_match(r, u, miss, limit));
        } else {
            Self::lemma_hits_children_member(self.children@, r, miss, limit, x);
            let j = choose|j: int|
                0 <= j < self.children@.len() && ({
                    ||| (#[trigger] self.children@[j]).0 == r[0] && self.children@[j].1.hits(r.drop_first(), 0, limit).contains(x)
                    ||| miss < limit && self.children@[j].1.hits(r, miss + 1, limit).contains(x)
                });
            let k = self.children@[j].0;
            let c = self.children@[j].1;
            assert(c.wf());
            self.lemma_child_decreases(j);
            if k == r[0] && c.hits(r.drop_first(), 0, limit).contains(x) {
                c.lemma_hits_sound(r.drop_first(), 0, limit, x);
                let u = choose|u: Seq<char>|
                    #[trigger] c.values_at(u).contains(x) && fuzzy_match(r.drop_first(), u, 0, limit);
                self.lemma_values_at_child(j, u);
                let w = seq![k] + u;
                assert(w[0] == k && w.drop_first() =~= u);
                assert(self.values_at(w).contains(x) && fuzzy_match(r, w, miss, limit));
            } else {
                c.lemma_hits_sound(r, miss + 1, limit, x);
                let u = choose|u: Seq<char>|
                    #[trigger] c.values_at(u).contains(x) && fuzzy_match(r, u, miss + 1, limit);
                self.lemma_values_at_child(j, u);
                let w = seq![k] + u;
                assert(w[0] == k && w.drop_first() =~= u);
                assert(self.values_at(w).contains(x) && fuzzy_match(r, w, miss, limit));
            }
        }
    }

    proof fn lemma_hits_children_contains_skip(ch: Seq<(char, Node<T>)>, r: Seq<char>, miss: nat, limit: nat, j: int, x: T)
        requires
            0 <= j < ch.len(),
            r.len() > 0,
            miss < limit,
            ch[j].1.hits(r, miss + 1, limit).contains(x),
        ensures
            Self::hits_children(ch, r, miss, limit).contains(x),
        decreases ch.len(),
    {
        let init = ch.subrange(0, ch.len() - 1);
        let last = ch[ch.len() - 1];
        let m = if last.0 == r[0] { last.1.hits(r.drop_first(), 0, limit) } else { Seq::empty() };
        let p = if miss < limit { last.1.hits(r, miss + 1, limit) } else { Seq::empty() };
        let rest = Self::hits_children(init, r, miss, limit);
        assert(Self::hits_children(ch, r, miss, limit) == m + p + rest);
        if j == ch.len() - 1 {
            let k = choose|k: int| 0 <= k < p.len() && p[k] == x;
            assert((m + p + rest)[m.len() + k] == x);
        } else {
            assert(init[j] == ch[j]);
            Self::lemma_hits_children_contains_skip(init, r, miss, limit, j, x);
            let k = choose|k: int| 0 <= k < rest.len() && rest[k] == x;
            assert((m + p + rest)[m.len() + p.len() + k] == x);
        }
    }

    /// A prefix search from this node collects every value stored under a word that the
    /// characters `r` match into.
    proof fn lemma_hits_complete(self, r: Seq<char>, u: Seq<char>, miss: nat, limit: nat, x: T)
        requires
            self.wf(),
            self.values_at(u).contains(x),
            fuzzy_match(r, u, miss, limit),
        ensures
            self.hits(r, miss, limit).contains(x),
        decreases u.len(),
    {
        if r.len() == 0 {
            self.lemma_subtree_contains(u, x);
        } else {
            self.lemma_values_at_unfold(u);
            let d = u[0];
            self.lemma_child_some(d);
            let j = choose|j: int|
                0 <= j < self.children@.len() && #[trigger] self.children@[j] == (d, self.child(d)->0);
            let c = self.children@[j].1;
            assert(c.wf());
            let rest = u.drop_first();
            if d == r[0] && fuzzy_match(r.drop_first(), rest, 0, limit) {
                c.lemma_hits_complete(r.drop_first(), rest, 0, limit, x);
                Self::lemma_hits_children_contains(self.children@, r, miss, limit, j, x);
            } else {
                c.lemma_hits_complete(r, rest, miss + 1, limit, x);
                Self::lemma_hits_children_contains_skip(self.children@, r, miss, limit, j, x);
            }
        }
    }

    /// The words stored at and below this node (values non-empty), relative to it, in the
    /// order the trie visits them.
    spec fn node_words(self) -> Seq<Seq<char>>
        decreases self, 0nat,
    {
        (if self.values@.len() > 0 {
            seq![Seq::<char>::empty()]
        } else {
            Seq::empty()
        }) + Self::children_words(self.children@)
    }

    spec fn children_words(ch: Seq<(char, Node<T>)>) -> Seq<Seq<char>>
        decreases ch, 1nat,
    {
        if ch.len() == 0 {
            Seq::empty()
        } else {
            let k = ch[ch.len() - 1].0;
            Self::children_words(ch.subrange(0, ch.len() - 1)) + ch[ch.len() - 1].1.node_words().map_values(
                |u: Seq<char>| seq![k] + u,
            )
        }
    }

    /// The values stored under the words `ws`, one word after another.
    spec fn vals(self, ws: Seq<Seq<char>>) -> Seq<T>
        decreases ws.len(),
    {
        if ws.len() == 0 {
            Seq::empty()
        } else {
            self.vals(ws.drop_last()) + self.values_at(ws.last())
        }
    }

    proof fn lemma_vals_concat(self, a: Seq<Seq<char>>, b: Seq<Seq<char>>)
        ensures
            self.vals(a + b) == self.vals(a) + self.vals(b),
        decreases b.len(),
    {
        if b.len() == 0 {
            assert(a + b =~= a);
        } else {
            assert((a + b).drop_last() =~= a + b.drop_last());
            assert((a + b).last() == b.last());
            self.lemma_vals_concat(a, b.drop_last());
        }
    }

    proof fn lemma_vals_prefixed(self, j: int, us: Seq<Seq<char>>)
        requires
            self.keys_sorted(),
            0 <= j < self.children@.len(),
        ensures
            self.vals(us.map_values(|u: Seq<char>| seq![self.children@[j].0] + u))
                == self.children@[j].1.vals(us),
        decreases us.len(),
    {
        let k = self.children@[j].0;
        let mapped = us.map_values(|u: Seq<char>| seq![k] + u);
        if us.len() > 0 {
            assert(mapped.drop_last() =~= us.drop_last().map_values(|u: Seq<char>| seq![k] + u));
            self.lemma_vals_prefixed(j, us.drop_last());
            self.lemma_values_at_child(j, us.last());
        }
    }

    /// What the words of the first `i` children are: each begins with its child's key and
    /// continues with a word stored below that child; they come in the trie's order, ahead of
    /// every later key; and their values, in order, are those children's subtree values.
    proof fn lemma_children_words(self, i: int)
        requires
            self.wf(),
            0 <= i <= self.children@.len(),
        ensures
            ({
                let cw = Self::children_words(self.children@.take(i));
                &&& Self::children_values(self.children@.take(i)) == self.vals(cw)
                &&& forall|a: int, b: int| 0 <= a < b < cw.len() ==> precedes(#[trigger] cw[a], #[trigger] cw[b])
                &&& forall|a: int, l: int|
                    0 <= a < cw.len() && i <= l < self.children@.len() ==> cw[a].len() > 0 && char_lt(
                        #[trigger] cw[a][0],
                        #[trigger] self.children@[l].0,
                    )
                &&& forall|a: int| 0 <= a < cw.len() ==> #[trigger] cw[a].len() > 0
                &&& forall|w: Seq<char>|
                    #[trigger] cw.contains(w) <==> (w.len() > 0 && exists|j: int|
                        0 <= j < i && #[trigger] self.children@[j].0 == w[0]
                            && self.children@[j].1.values_at(w.drop_first()).len() > 0)
            }),
        decreases self, i,
    {
        let ch = self.children@;
        if i == 0 {
            assert(ch.take(0) =~= Seq::<(char, Node<T>)>::empty());
        } else {
            self.lemma_children_words(i - 1);
            let t = ch.take(i);
            let prev = ch.take(i - 1);
            assert(t.subrange(0, t.len() - 1) =~= prev);
            assert(t[t.len() - 1] == ch[i - 1]);
            let k = ch[i - 1].0;
            let c = ch[i - 1].1;
            assert(c.wf());
            self.lemma_child_decreases(i - 1);
            c.lemma_node_words();
            let pw = Self::children_words(prev);
            let nw = c.node_words();
            let block = nw.map_values(|u: Seq<char>| seq![k] + u);
            let cw = Self::children_words(t);
            assert(cw == pw + block);
            self.lemma_vals_concat(pw, block);
            self.lemma_vals_prefixed(i - 1, nw);
            assert forall|a: int| 0 <= a < block.len() implies (#[trigger] block[a]).len() > 0 && block[a][0] == k
                && block[a].drop_first() == nw[a] by {
                assert(block[a] == seq![k] + nw[a]);
                assert((seq![k] + nw[a]).drop_first() =~= nw[a]);
            }
            assert forall|a: int, b: int| 0 <= a < b < cw.len() implies precedes(#[trigger] cw[a], #[trigger] cw[b]) by {
                if b < pw.len() {
                    assert(cw[a] == pw[a] && cw[b] == pw[b]);
                } else if a < pw.len() {
                    let x = cw[a];
                    let y = cw[b];
                    assert(x == pw[a]);
                    assert(y == block[b - pw.len()]);
                    assert(char_lt(x[0], ch[i - 1].0));
                    assert(x =~= seq![x[0]] + x.drop_first());
                    assert(y =~= seq![k] + nw[b - pw.len()]);
                    lemma_precedes_first_char(x[0], x.drop_first(), k, nw[b - pw.len()]);
                } else {
                    let a2 = a - pw.len();
                    let b2 = b - pw.len();
                    assert(cw[a] == block[a2] && cw[b] == block[b2]);
                    assert(precedes(nw[a2], nw[b2]));
                    assert(block[a2] == seq![k] + nw[a2]);
                    assert(block[b2] == seq![k] + nw[b2]);
                    lemma_precedes_common_prefix(seq![k], nw[a2], nw[b2]);
                }
            }
            assert forall|a: int, l: int|
                0 <= a < cw.len() && i <= l < ch.len() implies cw[a].len() > 0 && char_lt(
                #[trigger] cw[a][0],
                #[trigger] ch[l].0,
            ) by {
                if a < pw.len() {
                    assert(cw[a] == pw[a]);
                } else {
                    assert(cw[a] == block[a - pw.len()]);
                    assert(char_lt(ch[i - 1].0, ch[l].0));
                }
            }
            assert forall|a: int| 0 <= a < cw.len() implies #[trigger] cw[a].len() > 0 by {
                if a < pw.len() {
                    assert(cw[a] == pw[a]);
                } else {
                    assert(cw[a] == block[a - pw.len()]);
                }
            }
            assert forall|w: Seq<char>|
                #[trigger] cw.contains(w) <==> (w.len() > 0 && exists|j: int|
                    0 <= j < i && #[trigger] ch[j].0 == w[0] && ch[j].1.values_at(w.drop_first()).len() > 0) by {
                if cw.contains(w) {
                    let a = choose|a: int| 0 <= a < cw.len() && cw[a] == w;
                    if a < pw.len() {
                        assert(pw[a] == w);
                        assert(pw.contains(w));
                    } else {
                        let a2 = a - pw.len();
                        assert(block[a2] == w);
                        assert(nw.contains(nw[a2]));
                        assert(ch[i - 1].0 == w[0]);
                    }
                }
                if w.len() > 0 && exists|j: int|
                    0 <= j < i && #[trigger] ch[j].0 == w[0] && ch[j].1.values_at(w.drop_first()).len() > 0 {
                    let j = choose|j: int|
                        0 <= j < i && #[trigger] ch[j].0 == w[0] && ch[j].1.values_at(w.drop_first()).len() > 0;
                    if j < i - 1 {
                        assert(pw.contains(w));
                        let a = choose|a: int| 0 <= a < pw.len() && pw[a] == w;
                        assert(cw[a] == w);
                    } else {
                        let u = w.drop_first();
                        assert(nw.contains(u));
                        let a2 = choose|a2: int| 0 <= a2 < nw.len() && nw[a2] == u;
                        assert(block[a2] == seq![k] + u);
                        assert(w =~= seq![k] + u);
                        assert(cw[pw.len() + a2] == w);
                    }
                }
            }
        }
    }

    /// The words of this node, in the trie's order, hold exactly its stored words, and its
    /// subtree's values are their values one word after another.
    proof fn lemma_node_words(self)
        requires
            self.wf(),
        ensures
            ({
                let ws = self.node_words();
                &&& self.subtree_values() == self.vals(ws)
                &&& forall|a: int, b: int| 0 <= a < b < ws.len() ==> precedes(#[trigger] ws[a], #[trigger] ws[b])
                &&& forall|w: Seq<char>| #[trigger] ws.contains(w) <==> self.values_at(w).len() > 0
            }),
        decreases self, self.children@.len() + 1,
    {
        let ch = self.children@;
        self.lemma_children_words(ch.len() as int);
        assert(ch.take(ch.len() as int) =~= ch);
        let cw = Self::children_words(ch);
        let head = if self.values@.len() > 0 {
            seq![Seq::<char>::empty()]
        } else {
            Seq::<Seq<char>>::empty()
        };
        let ws = self.node_words();
        assert(ws == head + cw);
        self.lemma_vals_concat(head, cw);
        self.lemma_values_at_unfold(Seq::empty());
        if self.values@.len() > 0 {
            assert(head.drop_last() =~= Seq::<Seq<char>>::empty());
            assert(head.last() == Seq::<char>::empty());
            assert(self.vals(head.drop_last()) == Seq::<T>::empty());
            assert(self.vals(head) == self.vals(head.drop_last()) + self.values_at(head.last()));
            assert(self.vals(head) =~= self.values@);
        } else {
            assert(self.vals(head) =~= self.values@);
        }
        assert forall|a: int, b: int| 0 <= a < b < ws.len() implies precedes(#[trigger] ws[a], #[trigger] ws[b]) by {
            if a < head.len() {
                assert(ws[a] == Seq::<char>::empty());
                assert(ws[b] == cw[b - head.len()]);
                lemma_precedes_empty(ws[b]);
            } else {
                assert(ws[a] == cw[a - head.len()]);
                assert(ws[b] == cw[b - head.len()]);
            }
        }
        assert forall|w: Seq<char>| #[trigger] ws.contains(w) <==> self.values_at(w).len() > 0 by {
            self.lemma_values_at_unfold(w);
            if w.len() == 0 {
                if ws.contains(w) {
                    let a = choose|a: int| 0 <= a < ws.len() && ws[a] == w;
                    if a >= head.len() {
                        assert(cw[a - head.len()] == w);
                    }
                }
                if self.values_at(w).len() > 0 {
                    assert(w =~= Seq::<char>::empty());
                    assert(ws[0] == w);
                }
            } else {
                if ws.contains(w) {
                    let a = choose|a: int| 0 <= a < ws.len() && ws[a] == w;
                    assert(a >= head.len());
                    assert(cw[a - head.len()] == w);
                    assert(cw.contains(w));
                    let j = choose|j: int|
                        0 <= j < ch.len() && #[trigger] ch[j].0 == w[0] && ch[j].1.values_at(w.drop_first()).len() > 0;
                    self.lemma_child_at(j);
                }
                if self.values_at(w).len() > 0 {
                    self.lemma_child_some(w[0]);
                    let j = choose|j: int| 0 <= j < ch.len() && #[trigger] ch[j] == (w[0], self.child(w[0])->0);
                    assert(ch[j].0 == w[0]);
                    assert(cw.contains(w));
                    let a = choose|a: int| 0 <= a < cw.len() && cw[a] == w;
                    assert(ws[head.len() + a] == w);
                }
            }
        }
    }

    /// This node is `before` after one value has been stored under `key`: on the way to it the
    /// values stay and one child is grown or added; at its end the values are extended.
    spec fn grown_by(self, before: Node<T>, key: Seq<char>) -> bool
        decreases key.len(),
    {
        if key.len() == 0 {
            &&& self.children@ == before.children@
            &&& before.values@.is_prefix_of(self.values@)
        } else {
            &&& self.values@ == before.values@
            &&& exists|j: int, c: Node<T>|
                0 <= j <= before.children@.len() && {
                    ||| (j < before.children@.len() && before.children@[j].0 == key[0]
                        && self.children@ == before.children@.update(j, (key[0], c))
                        && c.grown_by(before.children@[j].1, key.drop_first()))
                    ||| self.children@ == before.children@.insert(j, (key[0], c))
                }
        }
    }

    proof fn lemma_hits_children_concat(a: Seq<(char, Node<T>)>, b: Seq<(char, Node<T>)>, r: Seq<char>, miss: nat, limit: nat)
        ensures
            Self::hits_children(a + b, r, miss, limit) == Self::hits_children(b, r, miss, limit) + Self::hits_children(
                a,
                r,
                miss,
                limit,
            ),
        decreases b.len(),
    {
        if r.len() == 0 {
        } else if b.len() == 0 {
            assert(a + b =~= a);
        } else {
            let ab = a + b;
            assert(ab.subrange(0, ab.len() - 1) =~= a + b.subrange(0, b.len() - 1));
            assert(ab[ab.len() - 1] == b[b.len() - 1]);
            Self::lemma_hits_children_concat(a, b.subrange(0, b.len() - 1), r, miss, limit);
        }
    }

    proof fn lemma_children_values_concat(a: Seq<(char, Node<T>)>, b: Seq<(char, Node<T>)>)
        ensures
            Self::children_values(a + b) == Self::children_values(a) + Self::children_values(b),
        decreases b.len(),
    {
        if b.len() == 0 {
            assert(a + b =~= a);
        } else {
            let ab = a + b;
            assert(ab.subrange(0, ab.len() - 1) =~= a + b.subrange(0, b.len() - 1));
            assert(ab[ab.len() - 1] == b[b.len() - 1]);
            Self::lemma_children_values_concat(a, b.subrange(0, b.len() - 1));
        }
    }

    /// An entry, taken alone, contributes to the children's values and prefix-search
    /// results what its child gives.
    proof fn lemma_single_entry(e: (char, Node<T>), r: Seq<char>, miss: nat, limit: nat)
        ensures
            Self::children_values(seq![e]) == e.1.subtree_values(),
            r.len() > 0 ==> Self::hits_children(seq![e], r, miss, limit) == (if e.0 == r[0] {
                e.1.hits(r.drop_first(), 0, limit)
            } else {
                Seq::empty()
            }) + (if miss < limit {
                e.1.hits(r, miss + 1, limit)
            } else {
                Seq::empty()
            }),
    {
        let s = seq![e];
        assert(s.subrange(0, 0) =~= Seq::<(char, Node<T>)>::empty());
        assert(Self::children_values(s.subrange(0, 0)) == Seq::<T>::empty());
        assert(s[0] == e);
        assert(Self::children_values(s) =~= e.1.subtree_values());
        if r.len() > 0 {
            let m = if e.0 == r[0] { e.1.hits(r.drop_first(), 0, limit) } else { Seq::empty() };
            let p = if miss < limit { e.1.hits(r, miss + 1, limit) } else { Seq::empty() };
            assert(Self::hits_children(s.subrange(0, 0), r, miss, limit) == Seq::<T>::empty());
            assert(Self::hits_children(s, r, miss, limit) =~= m + p);
        }
    }

    proof fn lemma_hits_children_update(bc: Seq<(char, Node<T>)>, j: int, e2: (char, Node<T>), r: Seq<char>, miss: nat, limit: nat, x: T)
        requires
            0 <= j < bc.len(),
            occurrences(Self::hits_children(seq![bc[j]], r, miss, limit), x) <= occurrences(
                Self::hits_children(seq![e2], r, miss, limit),
                x,
            ),
        ensures
            occurrences(Self::hits_children(bc, r, miss, limit), x) <= occurrences(
                Self::hits_children(bc.update(j, e2), r, miss, limit),
                x,
            ),
    {
        let a = bc.take(j);
        let b = bc.skip(j + 1);
        let e = bc[j];
        assert(bc =~= a + seq![e] + b);
        assert(bc.update(j, e2) =~= a + seq![e2] + b);
        Self::lemma_hits_children_concat(a + seq![e], b, r, miss, limit);
        Self::lemma_hits_children_concat(a, seq![e], r, miss, limit);
        Self::lemma_hits_children_concat(a + seq![e2], b, r, miss, limit);
        Self::lemma_hits_children_concat(a, seq![e2], r, miss, limit);
        let hb = Self::hits_children(b, r, miss, limit);
        let ha = Self::hits_children(a, r, miss, limit);
        let he = Self::hits_children(seq![e], r, miss, limit);
        let he2 = Self::hits_children(seq![e2], r, miss, limit);
        lemma_occurrences_concat(hb, he + ha, x);
        lemma_occurrences_concat(he, ha, x);
        lemma_occurrences_concat(hb, he2 + ha, x);
        lemma_occurrences_concat(he2, ha, x);
    }

    proof fn lemma_hits_children_insert(bc: Seq<(char, Node<T>)>, j: int, e2: (char, Node<T>), r: Seq<char>, miss: nat, limit: nat, x: T)
        requires
            0 <= j <= bc.len(),
        ensures
            occurrences(Self::hits_children(bc, r, miss, limit), x) <= occurrences(
                Self::hits_children(bc.insert(j, e2), r, miss, limit),
                x,
            ),
    {
        let a = bc.take(j);
        let b = bc.skip(j);
        assert(bc =~= a + b);
        assert(bc.insert(j, e2) =~= a + seq![e2] + b);
        Self::lemma_hits_children_concat(a, b, r, miss, limit);
        Self::lemma_hits_children_concat(a + seq![e2], b, r, miss, limit);
        Self::lemma_hits_children_concat(a, seq![e2], r, miss, limit);
        let hb = Self::hits_children(b, r, miss, limit);
        let ha = Self::hits_children(a, r, miss, limit);
        let he2 = Self::hits_children(seq![e2], r, miss, limit);
        lemma_occurrences_concat(hb, ha, x);
        lemma_occurrences_concat(hb, he2 + ha, x);
        lemma_occurrences_concat(he2, ha, x);
    }

    /// Storing one more value never takes a value away: every value occurs in the subtree and
    /// in every prefix-search result of the grown node at least as often as before.
    proof fn lemma_grown_keeps_counts(self, before: Node<T>, key: Seq<char>, r: Seq<char>, miss: nat, limit: nat, x: T)
        requires
            self.grown_by(before, key),
        ensures
            occurrences(before.subtree_values(), x) <= occurrences(self.subtree_values(), x),
            occurrences(before.hits(r, miss, limit), x) <= occurrences(self.hits(r, miss, limit), x),
        decreases key.len(), 1nat,
    {
        self.lemma_grown_keeps_subtree(before, key, x);
        if r.len() > 0 {
            let bc = before.children@;
            let ac = self.children@;
            assert(before.hits(r, miss, limit) == Self::hits_children(bc, r, miss, limit));
            assert(self.hits(r, miss, limit) == Self::hits_children(ac, r, miss, limit));
            if key.len() == 0 {
                assert(ac == bc);
            } else {
                let (j, c) = choose|j: int, c: Node<T>|
                    0 <= j <= bc.len() && {
                        ||| (j < bc.len() && bc[j].0 == key[0] && ac == bc.update(j, (key[0], c))
                            && c.grown_by(bc[j].1, key.drop_first()))
                        ||| ac == bc.insert(j, (key[0], c))
                    };
                let e2 = (key[0], c);
                if j < bc.len() && bc[j].0 == key[0] && ac == bc.update(j, (key[0], c))
                    && c.grown_by(bc[j].1, key.drop_first()) {
                    let e = bc[j];
                    let cb = e.1;
                    Self::lemma_single_entry(e, r, miss, limit);
                    Self::lemma_single_entry(e2, r, miss, limit);
                    c.lemma_grown_keeps_counts(cb, key.drop_first(), r.drop_first(), 0, limit, x);
                    c.lemma_grown_keeps_counts(cb, key.drop_first(), r, miss + 1, limit, x);
                    let m1 = if e.0 == r[0] { cb.hits(r.drop_first(), 0, limit) } else { Seq::empty() };
                    let p1 = if miss < limit { cb.hits(r, miss + 1, limit) } else { Seq::empty() };
                    let m2 = if e2.0 == r[0] { c.hits(r.drop_first(), 0, limit) } else { Seq::empty() };
                    let p2 = if miss < limit { c.hits(r, miss + 1, limit) } else { Seq::empty() };
                    lemma_occurrences_concat(m1, p1, x);
                    lemma_occurrences_concat(m2, p2, x);
                    Self::lemma_hits_children_update(bc, j, e2, r, miss, limit, x);
                } else {
                    Self::lemma_hits_children_insert(bc, j, e2, r, miss, limit, x);
                }
            }
        }
    }

    proof fn lemma_grown_keeps_subtree(self, before: Node<T>, key: Seq<char>, x: T)
        requires
            self.grown_by(before, key),
        ensures
            occurrences(before.subtree_values(), x) <= occurrences(self.subtree_values(), x),
        decreases key.len(), 0nat,
    {
        let bc = before.children@;
        let ac = self.children@;
        let cvb = Self::children_values(bc);
        let cva = Self::children_values(ac);
        lemma_occurrences_concat(before.values@, cvb, x);
        lemma_occurrences_concat(self.values@, cva, x);
        if key.len() == 0 {
            let bv = before.values@;
            let av = self.values@;
            assert(av =~= bv + av.skip(bv.len() as int));
            lemma_occurrences_concat(bv, av.skip(bv.len() as int), x);
            assert(ac == bc);
        } else {
            let (j, c) = choose|j: int, c: Node<T>|
                0 <= j <= bc.len() && {
                    ||| (j < bc.len() && bc[j].0 == key[0] && ac == bc.update(j, (key[0], c))
                        && c.grown_by(bc[j].1, key.drop_first()))
                    ||| ac == bc.insert(j, (key[0], c))
                };
            let e2 = (key[0], c);
            Self::lemma_single_entry(e2, Seq::empty(), 0, 0);
            if j < bc.len() && bc[j].0 == key[0] && ac == bc.update(j, (key[0], c))
                && c.grown_by(bc[j].1, key.drop_first()) {
                let a = bc.take(j);
                let b = bc.skip(j + 1);
                let e = bc[j];
                assert(bc =~= a + seq![e] + b);
                assert(ac =~= a + seq![e2] + b);
                Self::lemma_children_values_concat(a + seq![e], b);
                Self::lemma_children_values_concat(a, seq![e]);
                Self::lemma_children_values_concat(a + seq![e2], b);
                Self::lemma_children_values_concat(a, seq![e2]);
                Self::lemma_single_entry(e, Seq::empty(), 0, 0);
                let va = Self::children_values(a);
                let vb = Self::children_values(b);
                lemma_occurrences_concat(va + e.1.subtree_values(), vb, x);
                lemma_occurrences_concat(va, e.1.subtree_values(), x);
                lemma_occurrences_concat(va + c.subtree_values(), vb, x);
                lemma_occurrences_concat(va, c.subtree_values(), x);
                c.lemma_grown_keeps_subtree(e.1, key.drop_first(), x);
            } else {
                let a = bc.take(j);
                let b = bc.skip(j);
                assert(bc =~= a + b);
                assert(ac =~= a + seq![e2] + b);
                Self::lemma_children_values_concat(a, b);
                Self::lemma_children_values_concat(a + seq![e2], b);
                Self::lemma_children_values_concat(a, seq![e2]);
                let va = Self::children_values(a);
                let vb = Self::children_values(b);
                lemma_occurrences_concat(va, vb, x);
                lemma_occurrences_concat(va + c.subtree_values(), vb, x);
                lemma_occurrences_concat(va, c.subtree_values(), x);
            }
        }
    }

    proof fn lemma_insert_child(before: Node<T>, after: Node<T>, idx: int, c: char, fresh: Node<T>)
        requires
            before.wf(),
            fresh.wf(),
            0 <= idx <= before.children@.len(),
            after.children@ == before.children@.insert(idx, (c, fresh)),
            forall|j: int| 0 <= j < idx ==> char_lt(#[trigger] before.children@[j].0, c),
            forall|j: int| idx <= j < before.children@.len() ==> char_lt(c, #[trigger] before.children@[j].0),
        ensures
            after.keys_sorted(),
            forall|i: int| 0 <= i < after.children@.len() ==> #[trigger] after.children@[i].1.wf(),
            after.children@[idx] == (c, fresh),
            after.child(c) == Some(fresh),
            forall|d: char| d != c ==> #[trigger] after.child(d) == before.child(d),
    {
        assert forall|i: int| 0 <= i < after.children@.len() implies #[trigger] after.children@[i].1.wf() by {
            if i < idx {
                assert(after.children@[i] == before.children@[i]);
                assert(before.children@[i].1.wf());
            } else if i > idx {
                assert(after.children@[i] == before.children@[i - 1]);
                assert(before.children@[i - 1].1.wf());
            }
        }
        assert forall|i: int, j: int| 0 <= i < j < after.children@.len() implies char_lt(
            #[trigger] after.children@[i].0,
            #[trigger] after.children@[j].0,
        ) by {
            if j < idx {
                assert(after.children@[i] == before.children@[i]);
                assert(after.children@[j] == before.children@[j]);
            } else if j == idx {
                assert(after.children@[i] == before.children@[i]);
            } else if i < idx {
                assert(after.children@[i] == before.children@[i]);
                assert(after.children@[j] == before.children@[j - 1]);
            } else if i == idx {
                assert(after.children@[j] == before.children@[j - 1]);
            } else {
                assert(after.children@[i] == before.children@[i - 1]);
                assert(after.children@[j] == before.children@[j - 1]);
            }
        }
        after.lemma_child_at(idx);
        assert forall|d: char| d != c implies #[trigger] after.child(d) == before.child(d) by {
            if exists|i: int| 0 <= i < before.children@.len() && #[trigger] before.children@[i].0 == d {
                let i = choose|i: int| 0 <= i < before.children@.len() && #[trigger] before.children@[i].0 == d;
                before.lemma_child_at(i);
                let k = if i < idx { i } else { i + 1 };
                assert(after.children@[k] == before.children@[i]);
                after.lemma_child_at(k);
            } else {
                assert forall|i: int| 0 <= i < after.children@.len() implies #[trigger] after.children@[i].0 != d by {
                    if i < idx {
                        assert(after.children@[i] == before.children@[i]);
                    } else if i > idx {
                        assert(after.children@[i] == before.children@[i - 1]);
                    }
                }
            }
        }
    }

    proof fn lemma_update_child(before: Node<T>, after: Node<T>, idx: int, x: Node<T>)
        requires
            before.keys_sorted(),
            0 <= idx < before.children@.len(),
            after.children@ == before.children@.update(idx, (before.children@[idx].0, x)),
        ensures
            after.keys_sorted(),
            after.child(before.children@[idx].0) == Some(x),
            forall|d: char| d != before.children@[idx].0 ==> #[trigger] after.child(d) == before.child(d),
    {
        let c = before.children@[idx].0;
        assert(after.keys_sorted()) by {
            assert forall|i: int, j: int| 0 <= i < j < after.children@.len() implies char_lt(
                #[trigger] after.children@[i].0,
                #[trigger] after.children@[j].0,
            ) by {
                assert(after.children@[i].0 == before.children@[i].0);
                assert(after.children@[j].0 == before.children@[j].0);
            }
        }
        after.lemma_child_at(idx);
        assert forall|d: char| d != c implies #[trigger] after.child(d) == before.child(d) by {
            if exists|i: int| 0 <= i < before.children@.len() && #[trigger] before.children@[i].0 == d {
                let i = choose|i: int| 0 <= i < before.children@.len() && #[trigger] before.children@[i].0 == d;
                before.lemma_child_at(i);
                assert(after.children@[i] == before.children@[i]);
                after.lemma_child_at(i);
            } else {
                assert forall|i: int| 0 <= i < after.children@.len() implies #[trigger] after.children@[i].0 != d by {
                    assert(after.children@[i].0 == before.children@[i].0);
                }
            }
        }
    }
}

impl<T> Trie<T> {
    /// The trie's nodes are well formed (below every node, the children's keys strictly
    /// increase), it stores words in lower case, and lets three characters go unmatched in a row.
    pub closed spec fn wf(&self) -> bool {
        &&& self.root.wf()
        &&& self.ignore_case
        &&& self.miss_count == 3
    }

    /// This trie is `before` after one value has been stored under the normalized key `k`:
    /// along the path to `k` one child was grown or added, and the values at `k` were extended.
    pub closed spec fn grown_from(&self, before: Trie<T>, k: Seq<char>) -> bool {
        &&& self.root.grown_by(before.root, k)
        &&& self.miss_count == before.miss_count
    }

    /// Whether words are stored in lower case.
    pub closed spec fn ignores_case(&self) -> bool {
        self.ignore_case
    }

    /// How many characters of a stored word `search_prefix` lets go unmatched in a row.
    pub closed spec fn miss_limit(&self) -> nat {
        self.miss_count as nat
    }

    /// The word under which `insert` stores a value given for `w`.
    pub open spec fn key_for(&self, w: Seq<char>) -> Seq<char> {
        if self.ignores_case() {
            lowercase(w)
        } else {
            w
        }
    }

    /// The values stored under `w`, the empty sequence where there are none.
    pub open spec fn stored(&self, w: Seq<char>) -> Seq<T> {
        if self@.contains_key(w) {
            self@[w]
        } else {
            Seq::empty()
        }
    }

    /// An empty trie that stores words in lower case and lets up to three characters go
    /// unmatched in a row.
    pub fn new() -> (t: Self)
        ensures
            t.wf(),
            t@ == Map::<Seq<char>, Seq<T>>::empty(),
            t.ignores_case(),
            t.miss_limit() == 3,
    {
        let t = Trie { root: Node::empty(), miss_count: 3, extra_count: 3, ignore_case: true };
        assert(t@ =~= Map::<Seq<char>, Seq<T>>::empty());
        t
    }

    /// Appends `value` to the values stored under `word`, lower-cased where the trie ignores case.
    pub fn insert(&mut self, word: String, value: T)
        requires
            old(self).wf(),
        ensures
            final(self).wf(),
            final(self).ignores_case() == old(self).ignores_case(),
            final(self).miss_limit() == old(self).miss_limit(),
            final(self)@ == old(self)@.insert(
                old(self).key_for(word@),
                old(self).stored(old(self).key_for(word@)).push(value),
            ),
            final(self).grown_from(*old(self), old(self).key_for(word@)),
            is_latin1(word@) ==> old(self).key_for(word@) == latin1_lowercase(word@),
    {
        let mut word = word;
        if self.ignore_case {
            word = to_lowercase(word.as_str());
        }
        self.insert_key(word, value);
    }

    /// Appends `value` to the values stored under `key`, taken as it is given: `insert` after
    /// the key has been normalized.
    pub fn insert_key(&mut self, key: String, value: T)
        requires
            old(self).wf(),
        ensures
            final(self).wf(),
            final(self).ignores_case() == old(self).ignores_case(),
            final(self).miss_limit() == old(self).miss_limit(),
            final(self)@ == old(self)@.insert(key@, old(self).stored(key@).push(value)),
            final(self).grown_from(*old(self), key@),
    {
        let chars = chars_of(key.as_str());
        let ghost before = self.root;
        self.root.insert_at(&chars, 0, value);
        proof {
            assert(chars@.skip(0) =~= chars@);
            assert forall|w: Seq<char>| #[trigger] self.root.values_at(w) == if w == key@ {
                before.values_at(w).push(value)
            } else {
                before.values_at(w)
            } by {
                assert(self.root.values_at(w) == if w == chars@.skip(0) {
                    before.values_at(w).push(value)
                } else {
                    before.values_at(w)
                });
            }
            assert(old(self).stored(key@) == before.values_at(key@));
            assert(self@ =~= old(self)@.insert(key@, old(self).stored(key@).push(value)));
        }
    }

    /// The values stored under the first word, in the order of `precedes`, that begins with
    /// `word`; `None` where no stored word begins with it. The word is taken as it is given.
    pub fn search(&self, word: String) -> (r: Option<&Vec<T>>)
        requires
            self.wf(),
        ensures
            r is None <==> !has_completion(self@, word@),
            r matches Some(v) ==> v@.len() > 0 && exists|w: Seq<char>|
                is_first_completion(self@, word@, w) && v@ == #[trigger] self@[w],
    {
        let chars = chars_of(word.as_str());
        let mut node: &Node<T> = &self.root;
        let mut i: usize = 0;
        while i < chars.len()
            invariant
                i <= chars@.len(),
                chars@ == word@,
                self.root.wf(),
                node.wf(),
                self.root.lookup(chars@.take(i as int)) == Some(*node),
            decreases chars@.len() - i,
        {
            let c = chars[i];
            proof {
                self.root.lemma_lookup_append(chars@.take(i as int), seq![c]);
                assert(chars@.take(i + 1) =~= chars@.take(i as int) + seq![c]);
                assert(seq![c].drop_first() =~= Seq::<char>::empty());
                assert(seq![c][0] == c);
                reveal_with_fuel(Node::lookup, 2);
                assert(node.lookup(seq![c]) == match node.child(c) {
                    Some(n) => Some(n),
                    None => None::<Node<T>>,
                });
            }
            match node.get_child(c) {
                Some(n) => {
                    node = n;
                },
                None => {
                    proof {
                        assert forall|w: Seq<char>| #[trigger]
                            self@.contains_key(w) implies !word@.is_prefix_of(w) by {
                            if word@.is_prefix_of(w) {
                                let t = chars@.take(i + 1);
                                assert(chars@ == word@);
                                assert(w.subrange(0, word@.len() as int) =~= word@);
                                assert forall|k: int| 0 <= k < i + 1 implies w.take(i + 1)[k] == t[k] by {
                                    assert(w.subrange(0, word@.len() as int)[k] == word@[k]);
                                }
                                assert(w.take(i + 1) =~= t);
                                self.root.lemma_lookup_append(t, w.skip(i + 1));
                                assert(w =~= t + w.skip(i + 1));
                            }
                        }
                    }
                    return None;
                },
            }
            i += 1;
        }
        proof {
            assert(chars@.take(chars@.len() as int) =~= chars@);
        }
        let (found, Ghost(u)) = node.first_values();
        proof {
            assert forall|w: Seq<char>| word@.is_prefix_of(w) implies #[trigger] self.root.values_at(w)
                == node.values_at(w.skip(word@.len() as int)) by {
                self.root.lemma_lookup_append(word@, w.skip(word@.len() as int));
                assert(w =~= word@ + w.skip(word@.len() as int));
            }
        }
        match found {
            Some(v) => {
                proof {
                    let w = word@ + u;
                    assert(w.skip(word@.len() as int) =~= u);
                    assert(word@.is_prefix_of(w));
                    assert forall|w2: Seq<char>|
                        #![trigger self@.contains_key(w2)]
                        self@.contains_key(w2) && word@.is_prefix_of(w2) && w2 != w implies precedes(w, w2) by {
                        let u2 = w2.skip(word@.len() as int);
                        assert(w2 =~= word@ + u2);
                        lemma_precedes_common_prefix(word@, u, u2);
                    }
                    assert(is_first_completion(self@, word@, w));
                    assert(v@ == self@[w]);
                }
                Some(v)
            },
            None => {
                proof {
                    assert forall|w: Seq<char>| #[trigger]
                        self@.contains_key(w) implies !word@.is_prefix_of(w) by {
                        if word@.is_prefix_of(w) {
                            assert(node.values_at(w.skip(word@.len() as int)).len() == 0);
                        }
                    }
                }
                None
            },
        }
    }
}

impl<T> Trie<T> {
    /// What `search_prefix` collects for the already normalized prefix `p`: for every node
    /// the trie reaches by matching the characters of `p` in order, letting at most
    /// `miss_limit()` characters of the path go unmatched in a row before each of them,
    /// all values stored at and below that node; see `Node::hits` for the order.
    pub closed spec fn prefix_hits(&self, p: Seq<char>) -> Seq<T> {
        self.root.hits(p, 0, self.miss_count as nat)
    }

    /// Collects the values of the words that a fuzzy prefix search for `prefix` (lower-cased
    /// where the trie ignores case) reaches, exactly as `prefix_hits` describes them.
    pub fn search_prefix(&self, prefix: String) -> (r: Vec<&T>)
        requires
            self.wf(),
        ensures
            r@.unref() == self.prefix_hits(self.key_for(prefix@)),
            is_latin1(prefix@) ==> r@.unref() == self.prefix_hits(latin1_lowercase(prefix@)),
    {
        let mut prefix = prefix;
        if self.ignore_case {
            prefix = to_lowercase(prefix.as_str());
        }
        self.search_prefix_key(prefix)
    }

    /// Collects the values that a fuzzy prefix search for `key`, taken as it is given,
    /// reaches: `search_prefix` after the prefix has been normalized.
    pub fn search_prefix_key(&self, key: String) -> (r: Vec<&T>)
        requires
            self.wf(),
        ensures
            r@.unref() == self.prefix_hits(key@),
    {
        let mut result: Vec<&T> = Vec::new();
        let chars = chars_of(key.as_str());
        self.root.collect_hits(&chars, 0, 0, self.miss_count, &mut result);
        proof {
            assert(chars@.skip(0) =~= chars@);
            assert(Seq::<&T>::empty().unref() =~= Seq::<T>::empty());
            assert(result@.unref() =~= self.prefix_hits(key@));
        }
        result
    }
}

/// `precedes` is a strict order: no two words precede each other.
pub proof fn lemma_precedes_asymmetric(a: Seq<char>, b: Seq<char>)
    ensures
        !(precedes(a, b) && precedes(b, a)),
{
    if precedes(a, b) && precedes(b, a) {
        let ab_prefix = a.len() < b.len() && a == b.take(a.len() as int);
        let ba_prefix = b.len() < a.len() && b == a.take(b.len() as int);
        if ab_prefix && !ba_prefix {
            let i = choose|i: int|
                #![trigger b[i], a[i]]
                0 <= i < b.len() && i < a.len() && b.take(i) == a.take(i) && char_lt(b[i], a[i]);
            assert(a[i] == b.take(a.len() as int)[i]);
        } else if ba_prefix && !ab_prefix {
            let i = choose|i: int|
                #![trigger a[i], b[i]]
                0 <= i < a.len() && i < b.len() && a.take(i) == b.take(i) && char_lt(a[i], b[i]);
            assert(b[i] == a.take(b.len() as int)[i]);
        } else if !ab_prefix && !ba_prefix {
            let i = choose|i: int|
                #![trigger a[i], b[i]]
                0 <= i < a.len() && i < b.len() && a.take(i) == b.take(i) && char_lt(a[i], b[i]);
            let j = choose|j: int|
                #![trigger b[j], a[j]]
                0 <= j < b.len() && j < a.len() && b.take(j) == a.take(j) && char_lt(b[j], a[j]);
            if i < j {
                assert(b.take(j)[i] == a.take(j)[i]);
            } else if j < i {
                assert(a.take(i)[j] == b.take(i)[j]);
            }
        }
    }
}

/// A search has at most one answer: two first completions of the same prefix are the same word.
pub proof fn lemma_first_completion_unique<T>(
    m: Map<Seq<char>, Seq<T>>,
    p: Seq<char>,
    a: Seq<char>,
    b: Seq<char>,
)
    requires
        is_first_completion(m, p, a),
        is_first_completion(m, p, b),
    ensures
        a == b,
{
    if a != b {
        assert(m.contains_key(a) && m.contains_key(b));
        lemma_precedes_asymmetric(a, b);
    }
}

/// A stored word is its own first completion, so `search` for it gives back exactly the
/// values stored under it.
pub proof fn lemma_stored_word_is_first_completion<T>(m: Map<Seq<char>, Seq<T>>, w: Seq<char>)
    requires
        m.contains_key(w),
    ensures
        has_completion(m, w),
        is_first_completion(m, w, w),
{
    assert(w.is_prefix_of(w));
    assert forall|w2: Seq<char>|
        #![trigger m.contains_key(w2)]
        m.contains_key(w2) && w.is_prefix_of(w2) && w2 != w implies precedes(w, w2) by {
        if w2.len() == w.len() {
            assert(w2 =~= w);
        }
        assert(w =~= w2.take(w.len() as int));
    }
}

/// A prefix search finds every stored word that begins with the (normalized) prefix: all
/// values stored under such a word are among the values it collects.
pub proof fn lemma_prefix_hits_complete<T>(t: &Trie<T>, p: Seq<char>, w: Seq<char>, i: int)
    requires
        t.wf(),
        t@.contains_key(w),
        p.is_prefix_of(w),
        0 <= i < t@[w].len(),
    ensures
        t.prefix_hits(p).contains(t@[w][i]),
{
    let root = t.root;
    let u = w.skip(p.len() as int);
    assert(w =~= p + u);
    root.lemma_lookup_append(p, u);
    let n = root.lookup(p)->0;
    assert(root.values_at(w) == n.values_at(u));
    assert(n.values_at(u)[i] == t@[w][i]);
    assert(n.wf()) by {
        root.lemma_lookup_wf(p);
    }
    n.lemma_subtree_contains(u, t@[w][i]);
    root.lemma_hits_contains_exact(p, 0, t.miss_count as nat, t@[w][i]);
}

/// A prefix search collects only stored values: each of them is stored under some word.
pub proof fn lemma_prefix_hits_sound<T>(t: &Trie<T>, p: Seq<char>, j: int)
    requires
        t.wf(),
        0 <= j < t.prefix_hits(p).len(),
    ensures
        exists|w: Seq<char>| #[trigger] t@.contains_key(w) && t@[w].contains(t.prefix_hits(p)[j]),
{
    let x = t.prefix_hits(p)[j];
    assert(t.prefix_hits(p).contains(x));
    t.root.lemma_hits_sound(p, 0, t.miss_count as nat, x);
    let u = choose|u: Seq<char>| #[trigger] t.root.values_at(u).contains(x);
    assert(t@.contains_key(u));
}

/// A value stored last under a word is found again: `search` for the word gives the values
/// stored under it, and a prefix search for the word collects the value.
pub proof fn lemma_inserted_value_found<T>(t: &Trie<T>, k: Seq<char>, v: T)
    requires
        t.wf(),
        t@.contains_key(k),
        t@[k].len() > 0,
        t@[k].last() == v,
    ensures
        is_first_completion(t@, k, k),
        t.prefix_hits(k).contains(v),
{
    lemma_stored_word_is_first_completion(t@, k);
    assert(k.is_prefix_of(k));
    lemma_prefix_hits_complete(t, k, k, t@[k].len() - 1);
}

/// Every stored word has at least one value.
pub proof fn lemma_stored_values_nonempty<T>(t: &Trie<T>, w: Seq<char>)
    requires
        t@.contains_key(w),
    ensures
        t@[w].len() > 0,
{
}

/// What a prefix search collects, as a set: exactly the values stored under the words that
/// the (normalized) prefix matches into, with at most `miss_limit()` characters of the word
/// going unmatched in a row before each matched character.
pub proof fn lemma_prefix_hits_characterized<T>(t: &Trie<T>, p: Seq<char>, x: T)
    requires
        t.wf(),
    ensures
        t.prefix_hits(p).contains(x) <==> exists|w: Seq<char>|
            #[trigger] t@.contains_key(w) && t@[w].contains(x) && fuzzy_match(p, w, 0, t.miss_limit()),
{
    if t.prefix_hits(p).contains(x) {
        t.root.lemma_hits_sound(p, 0, t.miss_count as nat, x);
        let u = choose|u: Seq<char>|
            #[trigger] t.root.values_at(u).contains(x) && fuzzy_match(p, u, 0, t.miss_count as nat);
        assert(t@.contains_key(u));
    }
    if exists|w: Seq<char>|
        #[trigger] t@.contains_key(w) && t@[w].contains(x) && fuzzy_match(p, w, 0, t.miss_limit()) {
        let w = choose|w: Seq<char>|
            #[trigger] t@.contains_key(w) && t@[w].contains(x) && fuzzy_match(p, w, 0, t.miss_limit());
        t.root.lemma_hits_complete(p, w, 0, t.miss_count as nat, x);
    }
}

/// A longer query never adds a match: what a prefix search for `p2` collects, a search for
/// any prefix `p` of it collects too.
pub proof fn lemma_longer_prefix_adds_nothing<T>(t: &Trie<T>, p: Seq<char>, p2: Seq<char>, x: T)
    requires
        t.wf(),
        p.is_prefix_of(p2),
        t.prefix_hits(p2).contains(x),
    ensures
        t.prefix_hits(p).contains(x),
{
    lemma_prefix_hits_characterized(t, p2, x);
    let w = choose|w: Seq<char>|
        #[trigger] t@.contains_key(w) && t@[w].contains(x) && fuzzy_match(p2, w, 0, t.miss_limit());
    lemma_fuzzy_match_prefix(p, p2, w, 0, t.miss_limit());
    lemma_prefix_hits_characterized(t, p, x);
}

/// An insert never takes a match away: what a prefix search collected before, it collects
/// after; and the inserted value is collected wherever the query matches into its word.
pub proof fn lemma_insert_keeps_hits<T>(before: &Trie<T>, after: &Trie<T>, k: Seq<char>, v: T, q: Seq<char>, x: T)
    requires
        before.wf(),
        after.wf(),
        after.miss_limit() == before.miss_limit(),
        after@ == before@.insert(k, before.stored(k).push(v)),
    ensures
        before.prefix_hits(q).contains(x) ==> after.prefix_hits(q).contains(x),
        fuzzy_match(q, k, 0, after.miss_limit()) ==> after.prefix_hits(q).contains(v),
{
    if before.prefix_hits(q).contains(x) {
        lemma_prefix_hits_characterized(before, q, x);
        let w = choose|w: Seq<char>|
            #[trigger] before@.contains_key(w) && before@[w].contains(x) && fuzzy_match(q, w, 0, before.miss_limit());
        let i = choose|i: int| 0 <= i < before@[w].len() && before@[w][i] == x;
        if w == k {
            assert(after@[w][i] == x);
        } else {
            assert(after@[w] == before@[w]);
        }
        assert(after@.contains_key(w) && after@[w].contains(x));
        lemma_prefix_hits_characterized(after, q, x);
    }
    if fuzzy_match(q, k, 0, after.miss_limit()) {
        let s = before.stored(k).push(v);
        assert(after@[k][s.len() - 1] == v);
        assert(after@.contains_key(k) && after@[k].contains(v));
        lemma_prefix_hits_characterized(after, q, v);
    }
}

/// The values stored under the words `ws` of `m`, one word after another.
pub open spec fn concat_values<T>(m: Map<Seq<char>, Seq<T>>, ws: Seq<Seq<char>>) -> Seq<T>
    decreases ws.len(),
{
    if ws.len() == 0 {
        Seq::empty()
    } else {
        concat_values(m, ws.drop_last()) + m[ws.last()]
    }
}

/// A search for the empty prefix collects every stored value once: the stored words in the
/// order of `precedes`, each with its values in the order they were inserted.
pub proof fn lemma_empty_prefix_in_word_order<T>(t: &Trie<T>)
    requires
        t.wf(),
    ensures
        exists|ws: Seq<Seq<char>>|
            {
                &&& forall|a: int, b: int| 0 <= a < b < ws.len() ==> precedes(#[trigger] ws[a], #[trigger] ws[b])
                &&& forall|w: Seq<char>| #[trigger] ws.contains(w) <==> t@.contains_key(w)
                &&& t.prefix_hits(Seq::empty()) == concat_values(t@, ws)
            },
{
    let root = t.root;
    root.lemma_node_words();
    let ws = root.node_words();
    assert(t.prefix_hits(Seq::empty()) == root.subtree_values());
    assert forall|w: Seq<char>| #[trigger] ws.contains(w) <==> t@.contains_key(w) by {}
    assert forall|a: int| 0 <= a < ws.len() implies t@.contains_key(#[trigger] ws[a]) by {
        assert(ws.contains(ws[a]));
    }
    lemma_concat_values_root(t, ws);
}

proof fn lemma_concat_values_root<T>(t: &Trie<T>, ws: Seq<Seq<char>>)
    requires
        forall|a: int| 0 <= a < ws.len() ==> t@.contains_key(#[trigger] ws[a]),
    ensures
        concat_values(t@, ws) == t.root.vals(ws),
    decreases ws.len(),
{
    if ws.len() > 0 {
        assert forall|a: int| 0 <= a < ws.drop_last().len() implies t@.contains_key(#[trigger] ws.drop_last()[a]) by {
            assert(ws.drop_last()[a] == ws[a]);
        }
        lemma_concat_values_root(t, ws.drop_last());
        assert(t@.contains_key(ws[ws.len() - 1]));
    }
}

/// An insert leaves `search` alone for every text that does not begin the inserted key: the
/// same texts have completions, the first completion is the same word, and its values are
/// unchanged.
pub proof fn lemma_insert_keeps_unrelated_search<T>(
    before: &Trie<T>,
    after: &Trie<T>,
    k: Seq<char>,
    v: T,
    x: Seq<char>,
)
    requires
        after@ == before@.insert(k, before.stored(k).push(v)),
        !x.is_prefix_of(k),
    ensures
        has_completion(after@, x) == has_completion(before@, x),
        forall|w: Seq<char>| is_first_completion(after@, x, w) <==> is_first_completion(before@, x, w),
        forall|w: Seq<char>| x.is_prefix_of(w) && #[trigger] before@.contains_key(w) ==> after@[w] == before@[w],
{
    assert forall|w: Seq<char>| x.is_prefix_of(w) implies (#[trigger] after@.contains_key(w)
        == before@.contains_key(w) && (before@.contains_key(w) ==> after@[w] == before@[w])) by {
        assert(w != k);
    }
    if has_completion(after@, x) {
        let w = choose|w: Seq<char>| #[trigger] after@.contains_key(w) && x.is_prefix_of(w);
        assert(before@.contains_key(w));
    }
    if has_completion(before@, x) {
        let w = choose|w: Seq<char>| #[trigger] before@.contains_key(w) && x.is_prefix_of(w);
        assert(after@.contains_key(w));
    }
    assert forall|w: Seq<char>| is_first_completion(after@, x, w) <==> is_first_completion(before@, x, w) by {
        if is_first_completion(after@, x, w) {
            assert forall|w2: Seq<char>|
                #![trigger before@.contains_key(w2)]
                before@.contains_key(w2) && x.is_prefix_of(w2) && w2 != w implies precedes(w, w2) by {
                assert(after@.contains_key(w2));
            }
        }
        if is_first_completion(before@, x, w) {
            assert forall|w2: Seq<char>|
                #![trigger after@.contains_key(w2)]
                after@.contains_key(w2) && x.is_prefix_of(w2) && w2 != w implies precedes(w, w2) by {
                assert(before@.contains_key(w2));
            }
        }
    }
}

/// A longer query never adds a match, for queries as `search_prefix` takes them: where the
/// lower-cased `q2` begins with the lower-cased `q`, what a search for `q2` collects, a search
/// for `q` collects too.
pub proof fn lemma_longer_query_adds_nothing<T>(t: &Trie<T>, q: Seq<char>, q2: Seq<char>, x: T)
    requires
        t.wf(),
        lowercase(q).is_prefix_of(lowercase(q2)),
        t.prefix_hits(t.key_for(q2)).contains(x),
    ensures
        t.prefix_hits(t.key_for(q)).contains(x),
{
    lemma_longer_prefix_adds_nothing(t, lowercase(q), lowercase(q2), x);
}

/// The map that an empty trie holds after the inserts of `entries`, each an already
/// normalized key with a value, one after another.
pub open spec fn view_after_inserts<T>(entries: Seq<(Seq<char>, T)>) -> Map<Seq<char>, Seq<T>>
    decreases entries.len(),
{
    if entries.len() == 0 {
        Map::empty()
    } else {
        let m = view_after_inserts(entries.drop_last());
        let k = entries.last().0;
        let before = if m.contains_key(k) {
            m[k]
        } else {
            Seq::empty()
        };
        m.insert(k, before.push(entries.last().1))
    }
}

/// The values of the entries whose key is `w`, in the order of the entries.
pub open spec fn values_for<T>(entries: Seq<(Seq<char>, T)>, w: Seq<char>) -> Seq<T>
    decreases entries.len(),
{
    if entries.len() == 0 {
        Seq::empty()
    } else {
        values_for(entries.drop_last(), w) + (if entries.last().0 == w {
            seq![entries.last().1]
        } else {
            Seq::empty()
        })
    }
}

/// The values of the entries, gathered word by word for the words `ws` in turn.
pub open spec fn values_for_words<T>(entries: Seq<(Seq<char>, T)>, ws: Seq<Seq<char>>) -> Seq<T>
    decreases ws.len(),
{
    if ws.len() == 0 {
        Seq::empty()
    } else {
        values_for_words(entries, ws.drop_last()) + values_for(entries, ws.last())
    }
}

/// One more insert extends the map of a sequence of inserts by one entry.
pub proof fn lemma_view_after_insert_step<T>(t: &Trie<T>, after: &Trie<T>, entries: Seq<(Seq<char>, T)>, k: Seq<char>, v: T)
    requires
        t@ == view_after_inserts(entries),
        after@ == t@.insert(k, t.stored(k).push(v)),
    ensures
        after@ == view_after_inserts(entries.push((k, v))),
{
    let e2 = entries.push((k, v));
    assert(e2.drop_last() =~= entries);
}

proof fn lemma_view_after_inserts_values<T>(entries: Seq<(Seq<char>, T)>, w: Seq<char>)
    ensures
        view_after_inserts(entries).contains_key(w) <==> values_for(entries, w).len() > 0,
        view_after_inserts(entries).contains_key(w) ==> view_after_inserts(entries)[w] == values_for(entries, w),
        !view_after_inserts(entries).contains_key(w) ==> values_for(entries, w) == Seq::<T>::empty(),
    decreases entries.len(),
{
    if entries.len() > 0 {
        lemma_view_after_inserts_values(entries.drop_last(), w);
        let m = view_after_inserts(entries.drop_last());
        if entries.last().0 == w {
            if !m.contains_key(w) {
                assert(values_for(entries, w) =~= seq![entries.last().1]);
            }
        } else {
            assert(values_for(entries, w) =~= values_for(entries.drop_last(), w));
        }
    }
}

proof fn lemma_concat_values_for<T>(entries: Seq<(Seq<char>, T)>, ws: Seq<Seq<char>>)
    requires
        forall|a: int| 0 <= a < ws.len() ==> view_after_inserts(entries).contains_key(#[trigger] ws[a]),
    ensures
        concat_values(view_after_inserts(entries), ws) == values_for_words(entries, ws),
    decreases ws.len(),
{
    if ws.len() > 0 {
        assert forall|a: int| 0 <= a < ws.drop_last().len() implies view_after_inserts(entries).contains_key(
            #[trigger] ws.drop_last()[a],
        ) by {
            assert(ws.drop_last()[a] == ws[a]);
        }
        lemma_concat_values_for(entries, ws.drop_last());
        assert(view_after_inserts(entries).contains_key(ws[ws.len() - 1]));
        lemma_view_after_inserts_values(entries, ws.last());
    }
}

/// The empty-prefix search after a sequence of inserts: every inserted value once, ordered
/// by the keys in the order of `precedes` and, for one key, in the order of the inserts, that
/// is, the inserts stably sorted by their (normalized) keys.
pub proof fn lemma_empty_prefix_after_inserts<T>(t: &Trie<T>, entries: Seq<(Seq<char>, T)>)
    requires
        t.wf(),
        t@ == view_after_inserts(entries),
    ensures
        exists|ws: Seq<Seq<char>>|
            {
                &&& forall|a: int, b: int| 0 <= a < b < ws.len() ==> precedes(#[trigger] ws[a], #[trigger] ws[b])
                &&& forall|w: Seq<char>|
                    #[trigger] ws.contains(w) <==> exists|i: int| 0 <= i < entries.len() && #[trigger] entries[i].0 == w
                &&& t.prefix_hits(Seq::empty()) == values_for_words(entries, ws)
            },
{
    lemma_empty_prefix_in_word_order(t);
    let ws = choose|ws: Seq<Seq<char>>|
        {
            &&& forall|a: int, b: int| 0 <= a < b < ws.len() ==> precedes(#[trigger] ws[a], #[trigger] ws[b])
            &&& forall|w: Seq<char>| #[trigger] ws.contains(w) <==> t@.contains_key(w)
            &&& t.prefix_hits(Seq::empty()) == concat_values(t@, ws)
        };
    assert forall|a: int| 0 <= a < ws.len() implies view_after_inserts(entries).contains_key(#[trigger] ws[a]) by {
        assert(ws.contains(ws[a]));
    }
    lemma_concat_values_for(entries, ws);
    assert forall|w: Seq<char>|
        #[trigger] ws.contains(w) <==> exists|i: int| 0 <= i < entries.len() && #[trigger] entries[i].0 == w by {
        lemma_view_after_inserts_values(entries, w);
        lemma_values_for_nonempty(entries, w);
    }
}

proof fn lemma_values_for_nonempty<T>(entries: Seq<(Seq<char>, T)>, w: Seq<char>)
    ensures
        values_for(entries, w).len() > 0 <==> exists|i: int| 0 <= i < entries.len() && #[trigger] entries[i].0 == w,
    decreases entries.len(),
{
    if entries.len() > 0 {
        lemma_values_for_nonempty(entries.drop_last(), w);
        if exists|i: int| 0 <= i < entries.len() && #[trigger] entries[i].0 == w {
            let i = choose|i: int| 0 <= i < entries.len() && #[trigger] entries[i].0 == w;
            if i < entries.len() - 1 {
                assert(entries.drop_last()[i] == entries[i]);
            }
        }
        if exists|i: int| 0 <= i < entries.drop_last().len() && #[trigger] entries.drop_last()[i].0 == w {
            let i = choose|i: int| 0 <= i < entries.drop_last().len() && #[trigger] entries.drop_last()[i].0 == w;
            assert(entries[i] == entries.drop_last()[i]);
        }
    }
}

/// An insert never takes a match away, counted with multiplicity: every value occurs in a
/// prefix search of the trie after an insert at least as often as before it.
pub proof fn lemma_insert_keeps_hit_counts<T>(before: &Trie<T>, after: &Trie<T>, k: Seq<char>, q: Seq<char>, x: T)
    requires
        after.grown_from(*before, k),
    ensures
        occurrences(before.prefix_hits(q), x) <= occurrences(after.prefix_hits(q), x),
{
    after.root.lemma_grown_keeps_counts(before.root, k, q, 0, before.miss_count as nat, x);
}

/// Storing ignores case: a value inserted under a Latin-1 word, capitals and all, is found by a
/// prefix search for any Latin-1 text whose lower-case form begins the word's lower-case form
/// (as `insert` and `search_prefix` normalize them).
pub proof fn lemma_case_folded_prefix_found<T>(before: &Trie<T>, after: &Trie<T>, w: Seq<char>, v: T, q: Seq<char>)
    requires
        after.wf(),
        after@ == before@.insert(latin1_lowercase(w), before.stored(latin1_lowercase(w)).push(v)),
        latin1_lowercase(q).is_prefix_of(latin1_lowercase(w)),
    ensures
        after.prefix_hits(latin1_lowercase(q)).contains(v),
{
    let k = latin1_lowercase(w);
    let s = before.stored(k).push(v);
    assert(after@[k][s.len() - 1] == v);
    lemma_prefix_hits_complete(after, latin1_lowercase(q), k, s.len() - 1);
}

/// The Latin-1 lower-case form holds no capital: `A`-`Z`, `À`-`Ö` and `Ø`-`Þ` never occur
/// in it, and lower-casing it again changes nothing.
pub proof fn lemma_latin1_lowercase_has_no_capital(s: Seq<char>)
    ensures
        forall|i: int|
            0 <= i < s.len() ==> {
                let n = #[trigger] latin1_lowercase(s)[i] as int;
                !((0x41 <= n <= 0x5A) || (0xC0 <= n <= 0xD6) || (0xD8 <= n <= 0xDE))
            },
        latin1_lowercase(latin1_lowercase(s)) == latin1_lowercase(s),
{
    assert(latin1_lowercase(latin1_lowercase(s)) =~= latin1_lowercase(s));
}

/// Every trie the operations build stores words in lower case and lets three characters go
/// unmatched in a row.
pub proof fn lemma_wf_settings<T>(t: &Trie<T>)
    requires
        t.wf(),
    ensures
        t.ignores_case(),
        t.miss_limit() == 3,
        forall|w: Seq<char>| #[trigger] t.key_for(w) == lowercase(w),
{
}

impl<T> View for Trie<T> {
    type V = Map<Seq<char>, Seq<T>>;

    /// Each stored word with the values stored under it, in the order they were inserted.
    closed spec fn view(&self) -> Map<Seq<char>, Seq<T>> {
        Map::new(
            |w: Seq<char>| self.root.values_at(w).len() > 0,
            |w: Seq<char>| self.root.values_at(w),
        )
    }
}

} // verus!
