//! A compact per-node cache for the linear and xor passes' forms: a constant and terms, each an
//! atom with a coefficient (a mask, for xor). A form of width up to 64 keeps its constant and
//! coefficients as words, the terms in one arena; a wider form is kept whole. A read rebuilds the
//! same form.

use vstd::prelude::*;
use crate::bits;
use std::collections::HashMap;
use vstd::arithmetic::power2::*;
use crate::bitvec::BitVec;
use crate::engine::fin::Fin;

verus! {

broadcast use vstd::std_specs::hash::group_hash_axioms;

/// A constant and terms, each an atom with a coefficient, in the order of the atoms' indices.
#[derive(Debug)]
pub struct Form {
    /// The constant.
    pub konst: BitVec,
    /// The terms.
    pub terms: Vec<(u32, BitVec)>,
    /// Whether the form is final, and what it relies on.
    pub fin: Fin,
}

/// A form's parts: its constant, its terms in order, and its finality.
pub ghost struct FormV {
    /// The constant.
    pub konst: Seq<bool>,
    /// The terms.
    pub terms: Seq<(u32, Seq<bool>)>,
    /// Whether the form is final, and what it relies on.
    pub fin: Fin,
}

impl View for Form {
    type V = FormV;

    open spec fn view(&self) -> FormV {
        FormV {
            konst: self.konst@,
            terms: self.terms@.map_values(|t: (u32, BitVec)| (t.0, t.1@)),
            fin: self.fin,
        }
    }
}

impl FormV {
    /// Of `w` bits.
    pub open spec fn has(self, w: nat) -> bool {
        &&& self.konst.len() == w
        &&& forall|i: int| 0 <= i < self.terms.len() ==> (#[trigger] self.terms[i]).1.len() == w
    }
}

impl Form {
    /// A copy.
    pub(crate) fn dup(&self) -> (r: Form)
        ensures
            r@ == self@,
    {
        let mut terms: Vec<(u32, BitVec)> = Vec::with_capacity(self.terms.len());
        let mut i: usize = 0;
        while i < self.terms.len()
            invariant
                i <= self.terms.len(),
                terms@.len() == i,
                forall|j: int|
                    0 <= j < i ==> (#[trigger] terms@[j]).0 == self.terms@[j].0 && terms@[j].1@
                        == self.terms@[j].1@,
            decreases self.terms.len() - i,
        {
            let ghost before = terms@;
            terms.push((self.terms[i].0, self.terms[i].1.dup()));
            assert forall|j: int| 0 <= j < i + 1 implies (#[trigger] terms@[j]).0
                == self.terms@[j].0 && terms@[j].1@ == self.terms@[j].1@ by {
                if j < i {
                    assert(terms@[j] == before[j]);
                }
            }
            i = i + 1;
        }
        let r = Form { konst: self.konst.dup(), terms, fin: self.fin };
        assert(r@.terms =~= self@.terms);
        r
    }
}

/// A form as it is kept.
#[derive(Debug)]
pub enum Entry {
    /// Width up to 64; the terms are `arena[start..start + len]`.
    Narrow {
        /// The constant.
        konst: u64,
        /// Where the terms start.
        start: usize,
        /// How many there are.
        len: usize,
        /// The width.
        width: usize,
        /// The finality.
        fin: Fin,
    },
    /// Wider.
    Wide(Form),
}

/// Forms per node.
pub struct FormCache {
    map: HashMap<u32, Entry>,
    arena: Vec<(u32, u64)>,
}

/// The value of a word as `w` bits.
pub open spec fn word(x: u64, w: nat) -> Seq<bool> {
    bits::bits_of(x as int, w)
}

impl FormCache {
    /// The terms of the narrow forms are in the arena.
    pub closed spec fn wf(self) -> bool {
        forall|i: u32| #[trigger]
            self.map@.contains_key(i) ==> (self.map@[i] matches Entry::Narrow { start, len, .. }
                ==> start + len <= self.arena@.len())
    }

    /// What an entry stands for.
    spec fn meaning(self, e: Entry) -> FormV {
        match e {
            Entry::Narrow { konst, start, len, width, fin } => FormV {
                konst: word(konst, width as nat),
                terms: Seq::new(
                    len as nat,
                    |k: int|
                        (
                            self.arena@[start + k].0,
                            word(self.arena@[start + k].1, width as nat),
                        ),
                ),
                fin,
            },
            Entry::Wide(f) => f@,
        }
    }

    /// The form of node `i`, if it is kept.
    pub closed spec fn at(self, i: u32) -> Option<FormV> {
        if self.map@.contains_key(i) {
            Some(self.meaning(self.map@[i]))
        } else {
            None
        }
    }

    /// Nothing kept.
    pub fn new() -> (r: FormCache)
        ensures
            r.wf(),
            forall|i: u32| r.at(i) is None,
    {
        FormCache { map: HashMap::new(), arena: Vec::new() }
    }

    /// Whether node `i`'s form is kept.
    pub fn contains(&self, i: u32) -> (r: bool)
        ensures
            r == (self.at(i) is Some),
    {
        self.map.contains_key(&i)
    }

    /// Keeps `f` as the form of node `i`.
    pub fn insert(&mut self, i: u32, f: Form)
        requires
            old(self).wf(),
            f@.has(f.konst@.len()),
        ensures
            final(self).wf(),
            forall|k: u32|
                #[trigger] final(self).at(k) == (if k == i {
                    Some(f@)
                } else {
                    old(self).at(k)
                }),
    {
        let width = f.konst.len();
        let ghost m0 = self.map@;
        if width <= 64 {
            let start = self.arena.len();
            let ghost a0 = self.arena@;
            let mut k: usize = 0;
            while k < f.terms.len()
                invariant
                    k <= f.terms.len(),
                    width <= 64,
                    f@.has(width as nat),
                    self.map@ == m0,
                    self.arena@.len() == start + k,
                    start == a0.len(),
                    forall|j: int| 0 <= j < start ==> self.arena@[j] == a0[j],
                    forall|j: int|
                        0 <= j < k ==> (#[trigger] self.arena@[start + j]).0 == f.terms@[j].0
                            && word(self.arena@[start + j].1, width as nat) == f.terms@[j].1@,
                decreases f.terms.len() - k,
            {
                assert(f@.terms[k as int].1.len() == width);
                let x = narrow_word(&f.terms[k].1);
                proof {
                    lemma_word(f.terms@[k as int].1@);
                }
                let ghost before = self.arena@;
                self.arena.push((f.terms[k].0, x));
                proof {
                    assert forall|j: int| 0 <= j < k + 1 implies (
                    #[trigger] self.arena@[start + j]).0 == f.terms@[j].0 && word(
                        self.arena@[start + j].1,
                        width as nat,
                    ) == f.terms@[j].1@ by {
                        if j < k {
                            assert(self.arena@[start + j] == before[start + j]);
                        }
                    }
                }
                k = k + 1;
            }
            let x = narrow_word(&f.konst);
            proof {
                lemma_word(f.konst@);
            }
            let e = Entry::Narrow { konst: x, start, len: f.terms.len(), width, fin: f.fin };
            let ghost arena1 = self.arena@;
            proof {
                let got = self.meaning(e);
                assert(got.terms =~= f@.terms) by {
                    assert forall|j: int| 0 <= j < f@.terms.len() implies got.terms[j]
                        == f@.terms[j] by {
                        assert(self.arena@[start + j].0 == f.terms@[j].0);
                    }
                }
                assert(got == f@);
            }
            self.map.insert(i, e);
            proof {
                assert forall|k: u32| #[trigger]
                    self.at(k) == (if k == i {
                        Some(f@)
                    } else {
                        old(self).at(k)
                    }) by {
                    if k != i && m0.contains_key(k) {
                        let e1 = m0[k];
                        assert(self.map@[k] == e1);
                        assert(self.meaning(e1).terms =~= old(self).meaning(e1).terms);
                    }
                }
            }
        } else {
            let ghost fv = f@;
            self.map.insert(i, Entry::Wide(f));
            proof {
                assert forall|k: u32| #[trigger]
                    self.at(k) == (if k == i {
                        Some(fv)
                    } else {
                        old(self).at(k)
                    }) by {
                    if k != i && m0.contains_key(k) {
                        let e1 = m0[k];
                        assert(self.meaning(e1).terms =~= old(self).meaning(e1).terms);
                    }
                }
            }
        }
    }

    /// The form of node `i`, if it is kept.
    pub fn get(&self, i: u32) -> (r: Option<Form>)
        requires
            self.wf(),
        ensures
            r is Some == self.at(i) is Some,
            r matches Some(f) ==> f@ == self.at(i)->0,
    {
        match self.map.get(&i) {
            None => None,
            Some(Entry::Wide(f)) => Some(f.dup()),
            Some(Entry::Narrow { konst, start, len, width, fin }) => {
                let mut terms: Vec<(u32, BitVec)> = Vec::with_capacity(*len);
                let mut k: usize = 0;
                assert(self.map@.contains_key(i));
                while k < *len
                    invariant
                        k <= *len,
                        *start + *len <= self.arena.len(),
                        terms@.len() == k,
                        forall|j: int|
                            0 <= j < k ==> (#[trigger] terms@[j]).0 == self.arena@[*start + j].0
                                && terms@[j].1@ == word(self.arena@[*start + j].1, *width as nat),
                    decreases *len - k,
                {
                    let (a, c) = self.arena[*start + k];
                    let ghost before = terms@;
                    terms.push((a, BitVec::from_u64(*width, c)));
                    proof {
                        assert forall|j: int| 0 <= j < k + 1 implies (#[trigger] terms@[j]).0
                            == self.arena@[*start + j].0 && terms@[j].1@ == word(
                            self.arena@[*start + j].1,
                            *width as nat,
                        ) by {
                            if j < k {
                                assert(terms@[j] == before[j]);
                            }
                        }
                    }
                    k = k + 1;
                }
                let f = Form { konst: BitVec::from_u64(*width, *konst), terms, fin: *fin };
                assert(f@.terms =~= self.at(i)->0.terms);
                Some(f)
            },
        }
    }
}

/// The value of at most 64 bits as a word.
fn narrow_word(v: &BitVec) -> (r: u64)
    requires
        v@.len() <= 64,
    ensures
        r == bits::nat_of(v@),
{
    proof {
        bits::lemma_nat_bound(v@);
        bits::lemma_pow2_le(v@.len(), 64);
        lemma2_to64();
        lemma2_to64_rest();
    }
    match v.to_u64() {
        Some(x) => x,
        None => 0,
    }
}

/// A value comes back from its word.
pub proof fn lemma_word(s: Seq<bool>)
    requires
        s.len() <= 64,
    ensures
        bits::nat_of(s) <= u64::MAX,
        word(bits::nat_of(s) as u64, s.len()) == s,
{
    bits::lemma_nat_bound(s);
    bits::lemma_pow2_le(s.len(), 64);
    lemma2_to64();
    lemma2_to64_rest();
    bits::lemma_bits_of_nat(s);
}

} // verus!
