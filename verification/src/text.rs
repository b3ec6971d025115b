use vstd::prelude::*;

verus! {

/// The characters of `s`, in order.
pub fn chars_of(s: &str) -> (v: Vec<char>)
    ensures
        v@ == s@,
{
    let mut v: Vec<char> = Vec::new();
    for c in it: s.chars()
        invariant
            v@ == it.seq().take(it.index() as int),
    {
        v.push(c);
    }
    assert(v@ =~= s@);
    v
}

/// The position of the first `c` in `s`, if any.
pub fn find_first(s: &Vec<char>, c: char) -> (r: Option<usize>)
    ensures
        r == (match s@.index_of_first(c) {
            Some(i) => Some(i as usize),
            None => None::<usize>,
        }),
{
    proof {
        s@.index_of_first_ensures(c);
    }
    let n = s.len();
    for i in 0..n
        invariant
            n == s@.len(),
            forall|j: int| 0 <= j < i ==> s@[j] != c,
            match s@.index_of_first(c) {
                Some(index) => {
                    &&& s@.contains(c)
                    &&& 0 <= index < s@.len()
                    &&& s@[index] == c
                    &&& forall|j: int| 0 <= j < index < s@.len() ==> s@[j] != c
                },
                None => !s@.contains(c),
            },
    {
        if s[i] == c {
            return Some(i);
        }
    }
    None
}

/// The position of the last `c` in `s`, if any.
pub fn find_last(s: &Vec<char>, c: char) -> (r: Option<usize>)
    ensures
        r == (match s@.index_of_last(c) {
            Some(i) => Some(i as usize),
            None => None::<usize>,
        }),
{
    proof {
        s@.index_of_last_ensures(c);
    }
    let mut i = s.len();
    while i > 0
        invariant
            i <= s@.len(),
            forall|j: int| i <= j < s@.len() ==> s@[j] != c,
            match s@.index_of_last(c) {
                Some(index) => {
                    &&& s@.contains(c)
                    &&& 0 <= index < s@.len()
                    &&& s@[index] == c
                    &&& forall|j: int| 0 <= index < j < s@.len() ==> s@[j] != c
                },
                None => !s@.contains(c),
            },
        decreases i,
    {
        i -= 1;
        if s[i] == c {
            return Some(i);
        }
    }
    None
}

} // verus!
