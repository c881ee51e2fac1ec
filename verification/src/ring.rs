//! The symbol table of a session: program variables and free parameters.
//!
//! Variables and parameters are plain ordinals. A [`Ring`] records the name
//! of every variable and the set of parameters handed out so far; it only
//! grows. Algebraic values hold ordinals alone and take the ring as an
//! argument where they need a new symbol.
use vstd::prelude::*;

verus! {

/// A program variable, known by its ordinal.
#[derive(Clone, Copy, PartialEq, Eq, Structural, PartialOrd, Ord, Hash, Debug)]
pub struct Var {
    pub id: usize,
}

impl Var {
    pub fn new(i: usize) -> (v: Var)
        ensures
            v.id == i,
    {
        Var { id: i }
    }
}

/// A free coefficient parameter, known by its ordinal.
#[derive(Clone, Copy, PartialEq, Eq, Structural, PartialOrd, Ord, Hash, Debug)]
pub struct Par {
    pub id: usize,
}

impl Par {
    pub fn new(c: usize) -> (p: Par)
        ensures
            p.id == c,
    {
        Par { id: c }
    }
}

/// The variables, named in the order of their ordinals, and the parameters in
/// use, in increasing order.
#[derive(Clone, PartialEq, Eq, Debug)]
pub struct Ring {
    pub vars: Vec<String>,
    pub pars: Vec<Par>,
}

impl Ring {
    /// The names of the variables, by ordinal.
    pub open spec fn names(&self) -> Seq<Seq<char>> {
        Seq::new(self.vars@.len(), |i: int| self.vars@[i]@)
    }

    /// Whether the parameter `p` is in use.
    pub open spec fn has_par(&self, p: Par) -> bool {
        self.pars@.contains(p)
    }

    /// Whether a variable is called `name`.
    pub open spec fn has_name(&self, name: Seq<char>) -> bool {
        self.names().contains(name)
    }

    /// One more than the largest ordinal of a parameter in use; zero when
    /// there is none.
    pub open spec fn par_bound(&self) -> int {
        if self.pars@.len() == 0 {
            0
        } else {
            self.pars@.last().id + 1
        }
    }

    /// No two variables share a name, and the parameters stand in strictly
    /// increasing order.
    pub open spec fn wf(&self) -> bool {
        &&& forall|i: int, j: int|
            0 <= i < j < self.vars@.len() ==> self.vars@[i]@ != self.vars@[j]@
        &&& forall|i: int, j: int|
            0 <= i < j < self.pars@.len() ==> self.pars@[i].id < self.pars@[j].id
    }

    /// Every parameter in use lies below the bound.
    pub proof fn lemma_par_bound(&self, p: Par)
        requires
            self.wf(),
            self.has_par(p),
        ensures
            p.id < self.par_bound(),
    {
        let i = choose|i: int| 0 <= i < self.pars@.len() && self.pars@[i] == p;
        if i < self.pars@.len() - 1 {
            assert(self.pars@[i].id < self.pars@[self.pars@.len() - 1].id);
        }
    }

    /// The ring without variables or parameters.
    pub fn new() -> (r: Ring)
        ensures
            r.wf(),
            r.vars@.len() == 0,
            r.pars@.len() == 0,
    {
        Ring { vars: Vec::new(), pars: Vec::new() }
    }

    /// The variable called `name`, if there is one.
    pub fn lookup(&self, name: &String) -> (out: Option<Var>)
        ensures
            out.is_some() <==> self.has_name(name@),
            out matches Some(v) ==> v.id < self.vars@.len() && self.vars@[v.id as int]@ == name@
                && forall|j: int| 0 <= j < v.id ==> self.vars@[j]@ != name@,
    {
        let mut i: usize = 0;
        while i < self.vars.len()
            invariant
                i <= self.vars@.len(),
                forall|j: int| 0 <= j < i ==> self.vars@[j]@ != name@,
            decreases self.vars@.len() - i,
        {
            if self.vars[i] == *name {
                assert(self.names()[i as int] == name@);
                return Some(Var { id: i });
            }
            i += 1;
        }
        proof {
            if self.has_name(name@) {
                let j = choose|j: int| 0 <= j < self.names().len() && self.names()[j] == name@;
                assert(self.vars@[j]@ == name@);
            }
        }
        None
    }

    /// The variable called `s`: the one that already bears the name, or else
    /// a new one with the next ordinal.
    pub fn vextend(&mut self, s: String) -> (v: Var)
        requires
            old(self).wf(),
        ensures
            final(self).wf(),
            final(self).pars@ == old(self).pars@,
            old(self).has_name(s@) ==> final(self).vars@ == old(self).vars@,
            !old(self).has_name(s@) ==> final(self).vars@ == old(self).vars@.push(s) && v.id
                == old(self).vars@.len(),
            v.id < final(self).vars@.len(),
            final(self).vars@[v.id as int]@ == s@,
    {
        match self.lookup(&s) {
            Some(v) => v,
            None => {
                let v = Var { id: self.vars.len() };
                proof {
                    assert forall|j: int| 0 <= j < self.vars@.len() implies self.vars@[j]@
                        != s@ by {
                        if self.vars@[j]@ == s@ {
                            assert(self.names()[j] == s@);
                        }
                    }
                }
                self.vars.push(s);
                v
            },
        }
    }

    /// Whether the parameter `p` is in use.
    pub fn contains_par(&self, p: Par) -> (b: bool)
        ensures
            b == self.has_par(p),
    {
        let mut i: usize = 0;
        while i < self.pars.len()
            invariant
                i <= self.pars@.len(),
                forall|j: int| 0 <= j < i ==> self.pars@[j] != p,
            decreases self.pars@.len() - i,
        {
            if self.pars[i].id == p.id {
                return true;
            }
            i += 1;
        }
        false
    }

    /// Takes the parameter `p` into use.
    pub fn add_par(&mut self, p: Par)
        requires
            old(self).wf(),
        ensures
            final(self).wf(),
            final(self).vars@ == old(self).vars@,
            forall|q: Par| final(self).has_par(q) <==> (old(self).has_par(q) || q == p),
            final(self).par_bound() == if old(self).par_bound() > p.id {
                old(self).par_bound()
            } else {
                p.id + 1
            },
    {
        let mut i: usize = 0;
        while i < self.pars.len() && self.pars[i].id < p.id
            invariant
                i <= self.pars@.len(),
                forall|j: int| 0 <= j < i ==> self.pars@[j].id < p.id,
            decreases self.pars@.len() - i,
        {
            i += 1;
        }
        if i < self.pars.len() && self.pars[i].id == p.id {
            proof {
                assert(self.pars@[i as int] == p);
                if i < self.pars@.len() - 1 {
                    assert(self.pars@[i as int].id < self.pars@.last().id);
                }
            }
            return ;
        }
        let ghost before = self.pars@;
        self.pars.insert(i, p);
        proof {
            assert(self.pars@ == before.insert(i as int, p));
            assert forall|a: int, b: int| 0 <= a < b < self.pars@.len() implies self.pars@[a].id
                < self.pars@[b].id by {
                if a < i && b > i {
                    assert(before[a].id < before[b - 1].id || a == b - 1);
                }
            }
            assert forall|q: Par| self.has_par(q) <==> (before.contains(q) || q == p) by {
                if self.has_par(q) {
                    let k = choose|k: int| 0 <= k < self.pars@.len() && self.pars@[k] == q;
                    if k < i {
                        assert(before[k] == q);
                    } else if k > i {
                        assert(before[k - 1] == q);
                    }
                }
                if before.contains(q) {
                    let k = choose|k: int| 0 <= k < before.len() && before[k] == q;
                    if k < i {
                        assert(self.pars@[k] == q);
                    } else {
                        assert(self.pars@[k + 1] == q);
                    }
                }
                if q == p {
                    assert(self.pars@[i as int] == q);
                }
            }
            if before.len() > 0 && i < before.len() {
                assert(self.pars@.last() == before.last());
                if i < before.len() - 1 {
                    assert(before[i as int].id < before.last().id);
                }
            }
        }
    }

    /// Takes every parameter of `new_pars` into use.
    pub fn pextend(&mut self, new_pars: Vec<Par>)
        requires
            old(self).wf(),
        ensures
            final(self).wf(),
            final(self).vars@ == old(self).vars@,
            forall|q: Par|
                final(self).has_par(q) <==> (old(self).has_par(q) || new_pars@.contains(q)),
    {
        let mut k: usize = 0;
        while k < new_pars.len()
            invariant
                k <= new_pars@.len(),
                self.wf(),
                self.vars@ == old(self).vars@,
                forall|q: Par|
                    self.has_par(q) <==> (old(self).has_par(q) || new_pars@.take(k as int).contains(
                        q,
                    )),
            decreases new_pars@.len() - k,
        {
            let ghost prev = *self;
            self.add_par(new_pars[k]);
            proof {
                let t0 = new_pars@.take(k as int);
                let t1 = new_pars@.take(k + 1);
                assert forall|q: Par|
                    self.has_par(q) <==> (old(self).has_par(q) || t1.contains(q)) by {
                    if t1.contains(q) {
                        let j = choose|j: int| 0 <= j < t1.len() && t1[j] == q;
                        if j < k {
                            assert(t0[j] == q);
                        }
                    }
                    if t0.contains(q) {
                        let j = choose|j: int| 0 <= j < t0.len() && t0[j] == q;
                        assert(t1[j] == q);
                    }
                    if q == new_pars@[k as int] {
                        assert(t1[k as int] == q);
                    }
                }
            }
            k += 1;
        }
        proof {
            assert(new_pars@.take(new_pars@.len() as int) == new_pars@);
        }
    }

    /// A parameter that was never in use, now taken into use: its ordinal is
    /// the bound. `None`, and no change, when the bound has no ordinal left.
    pub fn mint(&mut self) -> (out: Option<Par>)
        requires
            old(self).wf(),
        ensures
            final(self).wf(),
            final(self).vars@ == old(self).vars@,
            out.is_some() <==> old(self).par_bound() <= usize::MAX,
            out.is_none() ==> final(self).pars@ == old(self).pars@,
            out matches Some(p) ==> p.id == old(self).par_bound() && !old(self).has_par(p)
                && final(self).pars@ == old(self).pars@.push(p) && final(self).par_bound() == p.id
                + 1,
    {
        let n = self.pars.len();
        let id: usize = if n == 0 {
            0
        } else {
            let last = self.pars[n - 1].id;
            if last == usize::MAX {
                return None;
            }
            last + 1
        };
        let p = Par { id };
        proof {
            if self.has_par(p) {
                self.lemma_par_bound(p);
            }
            assert forall|i: int| 0 <= i < self.pars@.len() implies self.pars@[i].id < id by {
                if i < n - 1 {
                    assert(self.pars@[i].id < self.pars@[n - 1].id);
                }
            }
        }
        self.pars.push(p);
        Some(p)
    }
}

/// The `k` parameters with the ordinals from `base` on.
pub open spec fn fresh_pars(base: int, k: int) -> Seq<Par> {
    Seq::new(k as nat, |i: int| Par { id: (base + i) as usize })
}

impl Ring {
    /// The bound of the parameters in use, where it is an ordinal.
    pub fn next_par(&self) -> (out: Option<usize>)
        requires
            self.wf(),
        ensures
            out.is_some() <==> self.par_bound() <= usize::MAX,
            out matches Some(b) ==> b == self.par_bound(),
    {
        let n = self.pars.len();
        if n == 0 {
            Some(0)
        } else {
            let last = self.pars[n - 1].id;
            if last == usize::MAX {
                None
            } else {
                Some(last + 1)
            }
        }
    }

    /// Takes into use the `k` parameters with the ordinals from the bound
    /// on.
    pub fn mint_many(&mut self, k: usize)
        requires
            old(self).wf(),
            old(self).par_bound() + k <= usize::MAX + 1,
        ensures
            final(self).wf(),
            final(self).vars@ == old(self).vars@,
            final(self).pars@ == old(self).pars@ + fresh_pars(old(self).par_bound(), k as int),
            final(self).par_bound() == old(self).par_bound() + k,
    {
        let ghost base = self.par_bound();
        let mut i: usize = 0;
        proof {
            assert(self.pars@ + fresh_pars(base, 0) =~= self.pars@);
        }
        while i < k
            invariant
                i <= k,
                base + k <= usize::MAX + 1,
                base == old(self).par_bound(),
                self.wf(),
                self.vars@ == old(self).vars@,
                self.pars@ == old(self).pars@ + fresh_pars(base, i as int),
                self.par_bound() == base + i,
            decreases k - i,
        {
            let out = self.mint();
            proof {
                let p = out.unwrap();
                assert(old(self).pars@ + fresh_pars(base, i + 1) =~= (old(self).pars@
                    + fresh_pars(base, i as int)).push(p));
            }
            i += 1;
        }
    }
}

/// The names after the name `s` has been looked up or added.
pub open spec fn intern_names(names: Seq<Seq<char>>, s: Seq<char>) -> Seq<Seq<char>> {
    if names.contains(s) {
        names
    } else {
        names.push(s)
    }
}

/// The ordinal of the variable called `s` after `s` has been looked up or
/// added.
pub open spec fn intern_id(names: Seq<Seq<char>>, s: Seq<char>) -> int {
    if names.contains(s) {
        names.index_of(s)
    } else {
        names.len() as int
    }
}

impl Ring {
    /// The variable called `s`, as `vextend` gives it, stated over the
    /// names.
    pub fn intern(&mut self, s: String) -> (v: Var)
        requires
            old(self).wf(),
        ensures
            final(self).wf(),
            final(self).pars@ == old(self).pars@,
            final(self).names() == intern_names(old(self).names(), s@),
            v.id == intern_id(old(self).names(), s@),
    {
        let ghost names = self.names();
        let ghost sv = s@;
        let v = self.vextend(s);
        proof {
            if names.contains(sv) {
                let i = names.index_of(sv);
                assert(names[i] == sv);
                assert(self.vars@[i]@ == sv);
                if i != v.id {
                    assert(self.vars@[v.id as int]@ == sv);
                }
                assert(self.names() =~= names);
            } else {
                assert(self.names() =~= names.push(sv));
            }
        }
        v
    }
}

} // verus!
