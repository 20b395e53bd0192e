//! Gives each distinct string (protocol names) a small number, so that the
//! log names it once and refers to it by number after that.
use vstd::prelude::*;

use crate::messages::StringDef;

verus! {

/// The table after interning `s` into `table`, the id `s` has there, and
/// whether `s` was new. Peers are registered the same way.
pub open spec fn interned<A>(table: Seq<A>, s: A) -> (Seq<A>, nat, bool) {
    if table.contains(s) {
        (table, table.index_of(s) as nat, false)
    } else {
        (table.push(s), table.len(), true)
    }
}

/// The table of interned strings: the string with id `i` is at index `i`.
pub struct StringInterner {
    values: Vec<String>,
}

impl View for StringInterner {
    type V = Seq<Seq<char>>;

    /// The strings in the order they were interned; a string's id is its index.
    closed spec fn view(&self) -> Seq<Seq<char>> {
        self.values@.map_values(|s: String| s@)
    }
}

impl StringInterner {
    #[verifier::type_invariant]
    spec fn inv(&self) -> bool {
        &&& self@.no_duplicates()
        &&& self.values@.len() <= u32::MAX
    }

    pub fn new() -> (r: Self)
        ensures
            r@ == Seq::<Seq<char>>::empty(),
            r@.no_duplicates(),
    {
        let r = StringInterner { values: Vec::new() };
        proof {
            assert(r@ =~= Seq::<Seq<char>>::empty());
        }
        r
    }

    /// How many strings have been interned.
    pub fn len(&self) -> (n: usize)
        ensures
            n == self@.len(),
            self@.no_duplicates(),
            self@.len() <= u32::MAX,
    {
        proof {
            use_type_invariant(self);
        }
        self.values.len()
    }

    /// Whether `s` has been interned.
    pub fn contains(&self, s: &str) -> (r: bool)
        ensures
            r == self@.contains(s@),
    {
        let owned = s.to_owned();
        let mut i: usize = 0;
        while i < self.values.len()
            invariant
                i <= self.values.len(),
                owned@ == s@,
                forall|j: int| 0 <= j < i ==> self@[j] != s@,
            decreases self.values.len() - i,
        {
            proof {
                assert(self@[i as int] == self.values@[i as int]@);
            }
            if self.values[i] == owned {
                proof {
                    assert(self@[i as int] == s@);
                }
                return true;
            }
            i = i + 1;
        }
        false
    }

    /// The id of `s`, interning it first if it is new. A new string gets
    /// the next id and comes back with its definition, to be logged.
    pub fn intern(&mut self, s: &str) -> (r: (u32, Option<StringDef>))
        requires
            old(self)@.contains(s@) || old(self)@.len() < u32::MAX,
        ensures
            final(self)@.no_duplicates(),
            final(self)@.len() <= u32::MAX,
            (final(self)@, r.0 as nat, r.1 is Some) == interned(old(self)@, s@),
            r.1 matches Some(def) ==> def.id == r.0 && def.value@ == s@,
    {
        proof {
            use_type_invariant(&*self);
        }
        let owned = s.to_owned();
        let mut i: usize = 0;
        while i < self.values.len()
            invariant
                i <= self.values.len(),
                self.values.len() <= u32::MAX,
                owned@ == s@,
                self@.no_duplicates(),
                forall|j: int| 0 <= j < i ==> self@[j] != s@,
            decreases self.values.len() - i,
        {
            proof {
                assert(self@[i as int] == self.values@[i as int]@);
            }
            if self.values[i] == owned {
                proof {
                    let k = self@.index_of(s@);
                    assert(self@[i as int] == s@);
                    assert(self@[k] == s@ && 0 <= k < self@.len());
                    assert(k == i);
                }
                return (i as u32, None);
            }
            i = i + 1;
        }
        proof {
            assert(!self@.contains(s@));
        }
        let id = self.values.len() as u32;
        let ghost old_view = self@;
        let mut values: Vec<String> = Vec::new();
        std::mem::swap(&mut values, &mut self.values);
        values.push(s.to_owned());
        let ghost new_view = values@.map_values(|v: String| v@);
        proof {
            assert(new_view =~= old_view.push(s@));
            assert forall|a: int, b: int|
                0 <= a < b < new_view.len() implies new_view[a] != new_view[b] by {
                if b == old_view.len() {
                    assert(old_view[a] != s@);
                }
            }
        }
        self.values = values;
        (id, Some(StringDef { id, value: s.to_owned() }))
    }

    /// Every interned string with its id, in id order.
    pub fn snapshot(&self) -> (defs: Vec<StringDef>)
        ensures
            defs.len() == self@.len(),
            forall|i: int|
                #![trigger defs@[i]]
                0 <= i < defs.len() ==> defs@[i].id == i && defs@[i].value@ == self@[i],
    {
        proof {
            use_type_invariant(self);
        }
        let mut defs: Vec<StringDef> = Vec::new();
        let mut i: usize = 0;
        while i < self.values.len()
            invariant
                i <= self.values.len(),
                self.values.len() <= u32::MAX,
                defs.len() == i,
                forall|j: int|
                    #![trigger defs@[j]]
                    0 <= j < i ==> defs@[j].id == j && defs@[j].value@ == self@[j],
            decreases self.values.len() - i,
        {
            let value = self.values[i].clone();
            proof {
                assert(self@[i as int] == self.values@[i as int]@);
            }
            defs.push(StringDef { id: i as u32, value });
            i = i + 1;
        }
        defs
    }
}

/// Interning is idempotent: interning a string a second time leaves the
/// table as it is and gives the id of the first time, with no definition.
pub proof fn lemma_intern_idempotent<A>(table: Seq<A>, s: A)
    requires
        table.no_duplicates(),
    ensures
        ({
            let (t1, id1, _) = interned(table, s);
            interned(t1, s) == (t1, id1, false)
        }),
{
    let (t1, id1, _) = interned(table, s);
    if !table.contains(s) {
        assert(t1[table.len() as int] == s);
        assert forall|a: int, b: int| 0 <= a < b < t1.len() implies t1[a] != t1[b] by {
            if b == table.len() {
                assert(!table.contains(s));
                assert(table[a] == t1[a]);
            }
        }
        let k = t1.index_of(s);
        assert(t1.contains(s));
        assert(t1[k] == s);
    }
}

/// Two different strings never get the same id, and ids are handed out in
/// order: the first string new to the table gets the table's length.
pub proof fn lemma_intern_distinct<A>(table: Seq<A>, a: A, b: A)
    requires
        table.no_duplicates(),
        a != b,
    ensures
        ({
            let (t1, ia, _) = interned(table, a);
            let (t2, ib, _) = interned(t1, b);
            &&& ia != ib
            &&& ia < t1.len() && ib < t2.len()
            &&& t1[ia as int] == a && t2[ib as int] == b
        }),
{
    let (t1, ia, _) = interned(table, a);
    if table.contains(a) {
        assert(t1[table.index_of(a)] == a);
    } else {
        assert(t1[table.len() as int] == a);
    }
    let (t2, ib, _) = interned(t1, b);
    if t1.contains(b) {
        assert(t2[t1.index_of(b)] == b);
    } else {
        assert(t2[t1.len() as int] == b);
        assert(t2[ia as int] == t1[ia as int]);
    }
}

} // verus!
