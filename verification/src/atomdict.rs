//! The flat element-count mapping a formula reduces to.

use crate::failures::ErrorCases;
use crate::grammar::{dict_add, lemma_dict_add_absent, lemma_dict_add_found, Dict};
use vstd::prelude::*;

verus! {

/// Byte-string equality.
pub fn bytes_eq(a: &Vec<u8>, b: &Vec<u8>) -> (r: bool)
    ensures
        r == (a@ == b@),
{
    if a.len() != b.len() {
        return false;
    }
    let n = a.len();
    let mut i: usize = 0;
    while i < n
        invariant
            0 <= i <= n,
            n == a@.len() == b@.len(),
            forall|j: int| 0 <= j < i ==> a@[j] == b@[j],
        decreases n - i,
    {
        if a[i] != b[i] {
            return false;
        }
        i += 1;
    }
    proof {
        assert(a@ =~= b@);
    }
    true
}

/// A copy of a byte string.
pub fn bytes_clone(a: &Vec<u8>) -> (r: Vec<u8>)
    ensures
        r@ == a@,
{
    let n = a.len();
    let mut r: Vec<u8> = Vec::new();
    let mut i: usize = 0;
    while i < n
        invariant
            0 <= i <= n,
            n == a@.len(),
            r@ =~= a@.subrange(0, i as int),
        decreases n - i,
    {
        r.push(a[i]);
        proof {
            assert(r@ =~= a@.subrange(0, i + 1));
        }
        i += 1;
    }
    proof {
        assert(r@ =~= a@);
    }
    r
}

/// A mapping from element symbol (or the charge ledger key `"e"`) to a
/// signed net count, in discovery order with pairwise distinct symbols.
pub struct AtomDict {
    dict: Vec<(Vec<u8>, i32)>,
}

impl View for AtomDict {
    type V = Dict;

    closed spec fn view(&self) -> Dict {
        Seq::new(self.dict@.len(), |i: int| (self.dict@[i].0@, self.dict@[i].1 as int))
    }
}

impl AtomDict {
    /// The empty mapping.
    pub fn new() -> (r: Self)
        ensures
            r@ == Seq::<(Seq<u8>, int)>::empty(),
    {
        let r = AtomDict { dict: Vec::new() };
        proof {
            assert(r@ =~= Seq::<(Seq<u8>, int)>::empty());
        }
        r
    }

    /// Adds `v` under `name` exactly as [`dict_add`] describes: in place on
    /// the first matching symbol, appended where the symbol is new, an error
    /// where the updated count leaves the coefficient range.
    pub fn add(&mut self, name: &Vec<u8>, v: i32) -> (r: Result<(), ErrorCases>)
        ensures
            match dict_add(old(self)@, name@, v as int) {
                Some(d) => r is Ok && final(self)@ == d,
                None => (r matches Err(e) && e is ParserError) && final(self)@ == old(self)@,
            },
    {
        let n = self.dict.len();
        let mut i: usize = 0;
        while i < n
            invariant
                0 <= i <= n,
                n == self.dict@.len(),
                self == old(self),
                forall|j: int| 0 <= j < i ==> (#[trigger] self.dict@[j]).0@ != name@,
            decreases n - i,
        {
            if bytes_eq(&self.dict[i].0, name) {
                proof {
                    assert(forall|j: int| 0 <= j < i ==> (#[trigger] old(self)@[j]).0 != name@);
                    assert(old(self)@[i as int].0 == name@);
                    lemma_dict_add_found(old(self)@, name@, v as int, i as int);
                }
                match self.dict[i].1.checked_add(v) {
                    Some(s) => {
                        self.dict[i].1 = s;
                        proof {
                            assert(self@ =~= old(self)@.update(
                                i as int,
                                (name@, old(self)@[i as int].1 + v as int),
                            ));
                        }
                        return Ok(());
                    },
                    None => {
                        return Err(
                            ErrorCases::ParserError("[AtomDict] count overflow".to_owned()),
                        );
                    },
                }
            }
            i += 1;
        }
        proof {
            assert(forall|j: int|
                0 <= j < old(self)@.len() ==> (#[trigger] old(self)@[j]).0 != name@);
            lemma_dict_add_absent(old(self)@, name@, v as int);
        }
        let key: Vec<u8> = bytes_clone(name);
        self.dict.push((key, v));
        proof {
            assert(self@ =~= old(self)@.push((name@, v as int)));
        }
        Ok(())
    }

    /// The accumulated pairs, in discovery order.
    pub fn get_dict(&self) -> (r: &Vec<(Vec<u8>, i32)>)
        ensures
            r@.len() == self@.len(),
            forall|k: int|
                0 <= k < self@.len() ==> (#[trigger] r@[k]).0@ == self@[k].0 && r@[k].1 as int
                    == self@[k].1,
    {
        &self.dict
    }
}

} // verus!
