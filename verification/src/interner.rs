use std::rc::Rc;
use vstd::prelude::*;

verus! {

/// `Rc::clone`: a new handle to the same string.
#[verifier::external_body]
pub(crate) fn rc_clone(r: &Rc<String>) -> (res: Rc<String>)
    ensures
        res == *r,
{
    Rc::clone(r)
}

/// A pool of shared strings: interning a name hands out the one shared copy of it.
///
/// The pool is a list searched in order, with no string in it twice (`wf`), rather than
/// a hash set: vstd specifies what a hash set's lookups return only for keys whose
/// hashing it models (integers and `bool`), and for a key such as `Rc<String>` only
/// under an assumption about its hashing, which this library makes nowhere.
pub struct Interner {
    pool: Vec<Rc<String>>,
}

impl Interner {
    /// The strings in the pool, in the order they were first interned.
    pub closed spec fn pool(&self) -> Seq<Seq<char>> {
        self.pool@.map_values(|r: Rc<String>| r@)
    }

    /// No string is in the pool twice.
    pub open spec fn wf(&self) -> bool {
        forall|i: int, j: int|
            0 <= i < j < self.pool().len() ==> #[trigger] self.pool()[i] != #[trigger] self.pool()[j]
    }

    pub fn new() -> (r: Interner)
        ensures
            r.wf(),
            r.pool() == Seq::<Seq<char>>::empty(),
    {
        let r = Interner { pool: Vec::new() };
        assert(r.pool() =~= Seq::<Seq<char>>::empty());
        r
    }

    /// The number of distinct strings interned so far.
    pub fn len(&self) -> (r: usize)
        ensures
            r == self.pool().len(),
    {
        self.pool.len()
    }

    /// The shared copy of `name`, added to the pool if it is not there yet.
    pub fn intern(&mut self, name: &str) -> (r: Rc<String>)
        requires
            old(self).wf(),
        ensures
            final(self).wf(),
            r@ == name@,
            old(self).pool().contains(name@) ==> final(self).pool() == old(self).pool(),
            !old(self).pool().contains(name@) ==> final(self).pool() == old(self).pool().push(
                name@,
            ),
            final(self).pool().contains(name@),
            forall|x: Seq<char>| #[trigger]
                old(self).pool().contains(x) ==> final(self).pool().contains(x),
    {
        broadcast use vstd::string::group_string_axioms;

        let s: String = name.to_string();
        let mut i: usize = 0;
        while i < self.pool.len()
            invariant
                s@ == name@,
                self.pool == old(self).pool,
                self.wf(),
                0 <= i <= self.pool@.len(),
                forall|k: int| 0 <= k < i ==> self.pool()[k] != name@,
            decreases self.pool@.len() - i,
        {
            let entry: &String = &*self.pool[i];
            if *entry == s {
                assert(self.pool()[i as int] == name@);
                return rc_clone(&self.pool[i]);
            }
            i = i + 1;
        }
        assert(!self.pool().contains(name@));
        let rc: Rc<String> = Rc::new(s);
        self.pool.push(rc_clone(&rc));
        assert(self.pool() =~= old(self).pool().push(name@));
        assert(self.pool()[self.pool().len() - 1] == name@);
        assert forall|x: Seq<char>| #[trigger] old(self).pool().contains(x) implies self.pool().contains(x) by {
            let k = choose|k: int| 0 <= k < old(self).pool().len() && old(self).pool()[k] == x;
            assert(self.pool()[k] == x);
        }
        rc
    }
}

impl Default for Interner {
    fn default() -> (r: Interner)
        ensures
            r.wf(),
            r.pool() == Seq::<Seq<char>>::empty(),
    {
        Interner::new()
    }
}

/// Interning is idempotent: interning a name that is already in the pool leaves the
/// pool as it is, and either way the pool ends up holding the name exactly once.
pub proof fn law_intern_pool(before: Seq<Seq<char>>, name: Seq<char>, after: Seq<Seq<char>>)
    requires
        forall|i: int, j: int| 0 <= i < j < before.len() ==> #[trigger] before[i] != #[trigger] before[j],
        before.contains(name) ==> after == before,
        !before.contains(name) ==> after == before.push(name),
    ensures
        after.contains(name),
        after.to_set() == before.to_set().insert(name),
        forall|i: int, j: int| 0 <= i < j < after.len() ==> #[trigger] after[i] != #[trigger] after[j],
{
    if !before.contains(name) {
        assert(after[after.len() - 1] == name);
        assert forall|i: int, j: int| 0 <= i < j < after.len() implies #[trigger] after[i]
            != #[trigger] after[j] by {
            if j == after.len() - 1 {
                assert(before[i] == after[i]);
            }
        }
        assert forall|x: Seq<char>| #[trigger] after.to_set().contains(x) <==> before.to_set().insert(
            name,
        ).contains(x) by {
            if after.contains(x) {
                let k = choose|k: int| 0 <= k < after.len() && after[k] == x;
                if k < before.len() {
                    assert(before[k] == x);
                }
            }
            if before.contains(x) {
                let k = choose|k: int| 0 <= k < before.len() && before[k] == x;
                assert(after[k] == x);
            }
        }
        assert(after.to_set() =~= before.to_set().insert(name));
    } else {
        assert(after.to_set() =~= before.to_set().insert(name));
    }
}

} // verus!
