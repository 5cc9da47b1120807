use vstd::prelude::*;

verus! {

/// A name that was defined twice in one scope.
#[derive(Clone, Copy, Debug, PartialEq, Eq, Structural)]
pub struct DuplicateSymbol {
    pub ident: u64,
}

/// Nested scopes of symbols, innermost last; each maps identifiers to symbols.
#[derive(Debug)]
pub struct Env<S> {
    scopes: Vec<Vec<(u64, S)>>,
}

/// The index of the entry for `ident` in `scope`, if it has one.
pub open spec fn find_in<S>(scope: Seq<(u64, S)>, ident: u64) -> Option<int>
    decreases scope.len(),
{
    if scope.len() == 0 {
        None
    } else if scope.last().0 == ident {
        Some(scope.len() - 1)
    } else {
        find_in(scope.drop_last(), ident)
    }
}

/// The symbol `ident` names, looking from the innermost scope outwards.
pub open spec fn lookup<S>(scopes: Seq<Seq<(u64, S)>>, ident: u64) -> Option<S>
    decreases scopes.len(),
{
    if scopes.len() == 0 {
        None
    } else {
        match find_in(scopes.last(), ident) {
            Some(k) => Some(scopes.last()[k].1),
            None => lookup(scopes.drop_last(), ident),
        }
    }
}

proof fn lemma_find_in_bound<S>(scope: Seq<(u64, S)>, ident: u64)
    ensures
        find_in(scope, ident) matches Some(k) ==> 0 <= k < scope.len() && scope[k].0 == ident,
        find_in(scope, ident) is None ==> forall|k: int| 0 <= k < scope.len() ==> (#[trigger] scope[k]).0 != ident,
    decreases scope.len(),
{
    if scope.len() > 0 && scope.last().0 != ident {
        lemma_find_in_bound(scope.drop_last(), ident);
        assert forall|k: int| 0 <= k < scope.len() - 1 implies scope[k] == scope.drop_last()[k] by {}
    }
}

impl<S> Env<S> {
    pub closed spec fn view(&self) -> Seq<Seq<(u64, S)>> {
        Seq::new(self.scopes@.len(), |i: int| self.scopes@[i]@)
    }

    /// No scopes.
    pub fn new() -> (r: Env<S>)
        ensures
            r.view().len() == 0,
    {
        let r = Env { scopes: Vec::new() };
        assert(r.view() =~= Seq::<Seq<(u64, S)>>::empty());
        r
    }

    /// Opens an innermost, empty scope.
    pub fn push_scope(&mut self)
        ensures
            final(self).view() == old(self).view().push(Seq::empty()),
    {
        let empty: Vec<(u64, S)> = Vec::new();
        self.scopes.push(empty);
        assert(self.view() =~= old(self).view().push(Seq::empty()));
    }

    /// Closes the innermost scope.
    pub fn pop_scope(&mut self)
        requires
            old(self).view().len() > 0,
        ensures
            final(self).view() == old(self).view().drop_last(),
    {
        self.scopes.pop();
        assert(self.view() =~= old(self).view().drop_last());
    }

    /// The index of the entry for `ident` in scope `i`, if it has one.
    fn find_in_scope(&self, i: usize, ident: u64) -> (r: Option<usize>)
        requires
            i < self.view().len(),
        ensures
            r matches Some(k) ==> find_in(self.view()[i as int], ident) == Some(k as int),
            r is None ==> find_in(self.view()[i as int], ident) is None,
    {
        let scope = &self.scopes[i];
        let ghost sv = self.view()[i as int];
        assert(scope@ == sv);
        let mut k: usize = scope.len();
        proof {
            assert(sv.subrange(0, k as int) =~= sv);
        }
        while k > 0
            invariant
                k <= sv.len(),
                scope@ == sv,
                i < self.view().len(),
                sv == self.view()[i as int],
                find_in(sv.subrange(0, k as int), ident) == find_in(sv, ident),
            decreases k,
        {
            let ghost pre = sv.subrange(0, k as int);
            assert(pre.drop_last() =~= sv.subrange(0, k - 1));
            assert(pre.last() == sv[k - 1]);
            if scope[k - 1].0 == ident {
                assert(scope@[k - 1] == sv[k - 1]);
                assert(find_in(pre, ident) == Some(k - 1));
                let found: usize = k - 1;
                assert(find_in(self.view()[i as int], ident) == Some(found as int));
                return Some(found);
            }
            k = k - 1;
        }
        None
    }

    /// The symbol `ident` names, looking from the innermost scope outwards.
    pub fn find_sym_on_scopes(&self, ident: u64) -> (r: Option<&S>)
        ensures
            r is Some <==> lookup(self.view(), ident) is Some,
            r matches Some(x) ==> lookup(self.view(), ident) == Some(*x),
    {
        let mut i: usize = self.scopes.len();
        proof {
            assert(self.view().subrange(0, i as int) =~= self.view());
        }
        while i > 0
            invariant
                i <= self.view().len(),
                self.view().len() == self.scopes@.len(),
                lookup(self.view().subrange(0, i as int), ident) == lookup(self.view(), ident),
            decreases i,
        {
            let ghost pre = self.view().subrange(0, i as int);
            assert(pre.drop_last() =~= self.view().subrange(0, i - 1));
            assert(pre.last() == self.view()[i - 1]);
            match self.find_in_scope(i - 1, ident) {
                Some(k) => {
                    proof {
                        lemma_find_in_bound(self.view()[i - 1], ident);
                    }
                    assert(self.scopes@[i - 1]@ == self.view()[i - 1]);
                    return Some(&self.scopes[i - 1][k].1);
                },
                None => {},
            }
            i = i - 1;
        }
        assert(self.view().subrange(0, 0) =~= Seq::<Seq<(u64, S)>>::empty());
        None
    }

    /// Defines `ident` as `sym` in the innermost scope, unless that scope
    /// defines it already.
    pub fn insert_sym(&mut self, ident: u64, sym: S) -> (r: Result<(), DuplicateSymbol>)
        requires
            old(self).view().len() > 0,
        ensures
            find_in(old(self).view().last(), ident) is Some ==> r == Err::<(), DuplicateSymbol>(DuplicateSymbol { ident })
                && final(self).view() == old(self).view(),
            find_in(old(self).view().last(), ident) is None ==> r is Ok
                && final(self).view() == old(self).view().drop_last().push(old(self).view().last().push((ident, sym))),
    {
        let n = self.scopes.len();
        match self.find_in_scope(n - 1, ident) {
            Some(_) => Err(DuplicateSymbol { ident }),
            None => {
                let mut last = self.scopes.pop().unwrap();
                let ghost before = last@;
                last.push((ident, sym));
                self.scopes.push(last);
                assert(self.view() =~= old(self).view().drop_last().push(old(self).view().last().push((ident, sym))));
                Ok(())
            },
        }
    }
}

} // verus!
