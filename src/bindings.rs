//! The mapping from identifiers to values that a template is rendered against.
use vstd::prelude::*;

use crate::value::Data;

verus! {

/// A mapping from identifier to value.
///
/// Binding a key again replaces what it was bound to.
pub struct Bindings {
    entries: Vec<(Vec<char>, Data)>,
}

/// The mapping that a list of entries stands for: a later entry of a key
/// shadows an earlier one.
pub open spec fn map_of(e: Seq<(Vec<char>, Data)>) -> Map<Seq<char>, Data>
    decreases e.len(),
{
    if e.len() == 0 {
        Map::empty()
    } else {
        map_of(e.drop_last()).insert(e.last().0@, e.last().1)
    }
}

/// Entries after position `i` that do not bind `k` leave its binding as the
/// first `i` entries give it.
proof fn lemma_map_of_prefix(e: Seq<(Vec<char>, Data)>, i: int, k: Seq<char>)
    requires
        0 <= i <= e.len(),
        forall|j: int| i <= j < e.len() ==> (#[trigger] e[j]).0@ != k,
    ensures
        map_of(e).contains_key(k) == map_of(e.subrange(0, i)).contains_key(k),
        map_of(e)[k] == map_of(e.subrange(0, i))[k],
    decreases e.len(),
{
    if i == e.len() {
        assert(e.subrange(0, i) =~= e);
    } else {
        let d = e.drop_last();
        assert(d.subrange(0, i) =~= e.subrange(0, i));
        assert forall|j: int| i <= j < d.len() implies (#[trigger] d[j]).0@ != k by {
            assert(d[j] == e[j]);
        }
        lemma_map_of_prefix(d, i, k);
    }
}

impl View for Bindings {
    type V = Map<Seq<char>, Data>;

    closed spec fn view(&self) -> Map<Seq<char>, Data> {
        map_of(self.entries@)
    }
}

impl Bindings {
    /// A mapping with no keys.
    pub fn new() -> (r: Bindings)
        ensures
            r@ == Map::<Seq<char>, Data>::empty(),
    {
        Bindings { entries: Vec::new() }
    }

    /// Binds `key` to `value`, replacing any earlier binding of `key`.
    pub fn insert(&mut self, key: &str, value: Data)
        ensures
            final(self)@ == old(self)@.insert(key@, value),
    {
        let k = crate::text::chars_of(key);
        self.entries.push((k, value));
        proof {
            assert(self.entries@.drop_last() =~= old(self).entries@);
        }
    }

    /// The value bound to the key whose characters are `key[from..to]`.
    pub fn get_range(&self, key: &Vec<char>, from: usize, to: usize) -> (r: Option<&Data>)
        requires
            from <= to <= key@.len(),
        ensures
            r is None <==> !self@.contains_key(key@.subrange(from as int, to as int)),
            r matches Some(v) ==> self@[key@.subrange(from as int, to as int)] == *v,
    {
        let ghost k = key@.subrange(from as int, to as int);
        let mut i = self.entries.len();
        while i > 0
            invariant
                i <= self.entries@.len(),
                k == key@.subrange(from as int, to as int),
                from <= to <= key@.len(),
                forall|j: int|
                    i <= j < self.entries@.len() ==> (#[trigger] self.entries@[j]).0@ != k,
            decreases i,
        {
            let e = &self.entries[i - 1];
            if same_chars(&e.0, key, from, to) {
                proof {
                    let p = self.entries@.subrange(0, i as int);
                    lemma_map_of_prefix(self.entries@, i as int, k);
                    assert(p.drop_last() =~= self.entries@.subrange(0, i - 1));
                    assert(p.last() == self.entries@[i - 1]);
                }
                return Some(&e.1);
            }
            i = i - 1;
        }
        proof {
            lemma_map_of_prefix(self.entries@, 0, k);
        }
        None
    }
}

/// Whether `a` holds exactly the characters `b[from..to]`.
fn same_chars(a: &Vec<char>, b: &Vec<char>, from: usize, to: usize) -> (r: bool)
    requires
        from <= to <= b@.len(),
    ensures
        r == (a@ == b@.subrange(from as int, to as int)),
{
    if a.len() != to - from {
        return false;
    }
    let mut k: usize = 0;
    while k < a.len()
        invariant
            a@.len() == to - from,
            from <= to <= b@.len(),
            k <= a@.len(),
            forall|m: int| 0 <= m < k ==> a@[m] == b@[from + m],
        decreases a.len() - k,
    {
        if a[k] != b[from + k] {
            assert(b@.subrange(from as int, to as int)[k as int] != a@[k as int]);
            return false;
        }
        k = k + 1;
    }
    assert(a@ =~= b@.subrange(from as int, to as int));
    true
}

} // verus!
