//! Small sets over the finite symbol universe, kept as one flag per
//! element: sets of nonterminals and sets of terminals and ε.
use vstd::prelude::*;
use crate::symbol::{
    NonTerminal, Symbol, all_terminals, lemma_nonterminal_index, lemma_terminal_index,
    nonterminal_index, terminal_index,
};

verus! {

/// How many flags are set.
pub open spec fn count_true(s: Seq<bool>) -> nat
    decreases s.len(),
{
    if s.len() == 0 {
        0
    } else {
        count_true(s.drop_last()) + if s.last() {
            1nat
        } else {
            0nat
        }
    }
}

/// At most every flag is set.
pub proof fn lemma_count_bound(s: Seq<bool>)
    ensures
        count_true(s) <= s.len(),
    decreases s.len(),
{
    if s.len() > 0 {
        lemma_count_bound(s.drop_last());
    }
}

/// Setting a flag that was clear adds one.
pub proof fn lemma_count_set(s: Seq<bool>, i: int)
    requires
        0 <= i < s.len(),
        !s[i],
    ensures
        count_true(s.update(i, true)) == count_true(s) + 1,
    decreases s.len(),
{
    let t = s.update(i, true);
    if i == s.len() - 1 {
        assert(t.drop_last() =~= s.drop_last());
    } else {
        assert(t.drop_last() =~= s.drop_last().update(i, true));
        lemma_count_set(s.drop_last(), i);
    }
}

/// The number of nonterminals.
pub open spec fn nonterminal_count() -> nat {
    28
}

/// A set of nonterminals.
pub struct NonTerminalSet {
    flags: Vec<bool>,
}

impl View for NonTerminalSet {
    type V = Set<NonTerminal>;

    closed spec fn view(&self) -> Set<NonTerminal> {
        Set::new(|n: NonTerminal| self.flags@[nonterminal_index(n)])
    }
}

/// Distinct nonterminals have distinct indices.
proof fn lemma_nonterminal_index_injective(a: NonTerminal, b: NonTerminal)
    ensures
        nonterminal_index(a) == nonterminal_index(b) ==> a == b,
        0 <= nonterminal_index(a) < nonterminal_count(),
{
    lemma_nonterminal_index(a);
    lemma_nonterminal_index(b);
}

impl NonTerminalSet {
    #[verifier::type_invariant]
    spec fn flag_per_nonterminal(self) -> bool {
        self.flags@.len() == nonterminal_count()
    }

    /// The number of members, as a measure that grows with each insertion.
    pub closed spec fn size(&self) -> nat {
        count_true(self.flags@)
    }

    /// The empty set.
    pub fn new() -> (s: Self)
        ensures
            s@ == Set::<NonTerminal>::empty(),
            s.size() == 0,
    {
        let mut flags: Vec<bool> = Vec::new();
        let mut k: usize = 0;
        while k < 28
            invariant
                k <= 28,
                flags@.len() == k,
                forall|i: int| 0 <= i < k ==> !flags@[i],
                count_true(flags@) == 0,
            decreases 28 - k,
        {
            let ghost before = flags@;
            flags.push(false);
            assert(flags@.drop_last() =~= before);
            k = k + 1;
        }
        let s = NonTerminalSet { flags };
        assert forall|n: NonTerminal| !s@.contains(n) by {
            lemma_nonterminal_index_injective(n, n);
        }
        assert(s@ =~= Set::<NonTerminal>::empty());
        s
    }

    /// Whether `n` is a member.
    pub fn contains(&self, n: NonTerminal) -> (b: bool)
        ensures
            b == self@.contains(n),
    {
        proof {
            use_type_invariant(self);
            lemma_nonterminal_index_injective(n, n);
        }
        self.flags[n.index()]
    }

    /// Adds `n`; whether it was new.
    pub fn insert(&mut self, n: NonTerminal) -> (added: bool)
        ensures
            final(self)@ == old(self)@.insert(n),
            added == !old(self)@.contains(n),
            added ==> final(self).size() == old(self).size() + 1,
            !added ==> final(self).size() == old(self).size(),
            final(self).size() <= nonterminal_count(),
    {
        proof {
            use_type_invariant(&*self);
            lemma_nonterminal_index_injective(n, n);
            lemma_count_bound(self.flags@);
        }
        let i = n.index();
        if self.flags[i] {
            return false;
        }
        let ghost before = self.flags@;
        let mut flags = self.flags.clone();
        assert(flags@ =~= before);
        flags.set(i, true);
        *self = NonTerminalSet { flags };
        proof {
            lemma_count_set(before, i as int);
            lemma_count_bound(self.flags@);
            assert forall|m: NonTerminal| self@.contains(m) == old(self)@.insert(n).contains(m) by {
                lemma_nonterminal_index_injective(m, n);
            }
            assert(self@ =~= old(self)@.insert(n));
        }
        true
    }
}

} // verus!

verus! {

/// The number of slots of a symbol set: one per terminal, and one for ε.
pub open spec fn slot_count() -> nat {
    29
}

/// The slot of a terminal or of ε; nonterminals have none.
pub open spec fn slot(s: Symbol) -> Option<int> {
    match s {
        Symbol::Terminal(t) => Some(terminal_index(t)),
        Symbol::Epsilon => Some(28),
        Symbol::NonTerminal(_) => None,
    }
}

/// The symbol held in slot `i`.
pub open spec fn slot_symbol(i: int) -> Symbol {
    if i == 28 {
        Symbol::Epsilon
    } else {
        Symbol::Terminal(all_terminals()[i])
    }
}

/// Slots and symbols correspond one to one.
pub proof fn lemma_slot(s: Symbol)
    ensures
        slot(s) matches Some(i) ==> 0 <= i < slot_count() && slot_symbol(i) == s,
{
    if let Symbol::Terminal(t) = s {
        lemma_terminal_index(t);
    }
}

/// A set of terminals, possibly with ε (the sets that FIRST and FOLLOW
/// computations build).
pub struct SymbolSet {
    flags: Vec<bool>,
}

impl View for SymbolSet {
    type V = Set<Symbol>;

    closed spec fn view(&self) -> Set<Symbol> {
        Set::new(
            |s: Symbol|
                match slot(s) {
                    Some(i) => self.flags@[i],
                    None => false,
                },
        )
    }
}

impl SymbolSet {
    #[verifier::type_invariant]
    spec fn flag_per_slot(self) -> bool {
        self.flags@.len() == slot_count()
    }

    /// The number of members, as a measure that grows with each insertion.
    pub closed spec fn size(&self) -> nat {
        count_true(self.flags@)
    }

    /// The empty set.
    pub fn new() -> (s: Self)
        ensures
            s@ == Set::<Symbol>::empty(),
            s.size() == 0,
    {
        let mut flags: Vec<bool> = Vec::new();
        let mut k: usize = 0;
        while k < 29
            invariant
                k <= 29,
                flags@.len() == k,
                forall|i: int| 0 <= i < k ==> !flags@[i],
                count_true(flags@) == 0,
            decreases 29 - k,
        {
            let ghost before = flags@;
            flags.push(false);
            assert(flags@.drop_last() =~= before);
            k = k + 1;
        }
        let s = SymbolSet { flags };
        assert forall|x: Symbol| !s@.contains(x) by {
            lemma_slot(x);
        }
        assert(s@ =~= Set::<Symbol>::empty());
        s
    }

    /// A copy of the set.
    pub fn copy(&self) -> (r: Self)
        ensures
            r@ == self@,
            r.size() == self.size(),
            r.size() <= slot_count(),
    {
        proof {
            use_type_invariant(self);
            lemma_count_bound(self.flags@);
        }
        let flags = self.flags.clone();
        assert(flags@ =~= self.flags@);
        let r = SymbolSet { flags };
        assert(r@ =~= self@);
        r
    }

    /// Whether `x` is a member.
    pub fn contains(&self, x: Symbol) -> (b: bool)
        ensures
            b == self@.contains(x),
    {
        proof {
            use_type_invariant(self);
            lemma_slot(x);
        }
        match x {
            Symbol::Terminal(t) => self.flags[t.index()],
            Symbol::Epsilon => self.flags[28],
            Symbol::NonTerminal(_) => false,
        }
    }

    /// Adds the terminal or ε `x`.
    pub fn insert(&mut self, x: Symbol)
        requires
            !(x is NonTerminal),
        ensures
            final(self)@ == old(self)@.insert(x),
            old(self)@.contains(x) ==> final(self).size() == old(self).size(),
            !old(self)@.contains(x) ==> final(self).size() == old(self).size() + 1,
            final(self).size() <= slot_count(),
    {
        proof {
            use_type_invariant(&*self);
            lemma_slot(x);
            lemma_count_bound(self.flags@);
        }
        let i = match x {
            Symbol::Terminal(t) => t.index(),
            _ => 28,
        };
        if self.flags[i] {
            assert(self@.insert(x) =~= self@);
            return ;
        }
        let ghost before = self.flags@;
        let mut flags = self.flags.clone();
        assert(flags@ =~= before);
        flags.set(i, true);
        *self = SymbolSet { flags };
        proof {
            lemma_count_set(before, i as int);
            lemma_count_bound(self.flags@);
            assert forall|y: Symbol| self@.contains(y) == old(self)@.insert(x).contains(y) by {
                lemma_slot(y);
            }
            assert(self@ =~= old(self)@.insert(x));
        }
    }

    /// Adds the members of `other`, ε left out when `with_epsilon` is false.
    pub fn extend_from(&mut self, other: &SymbolSet, with_epsilon: bool) -> (grew: bool)
        ensures
            final(self)@ == old(self)@ + other@.filter(|y: Symbol| with_epsilon || y != Symbol::Epsilon),
            final(self).size() >= old(self).size(),
            grew == (final(self).size() > old(self).size()),
            !grew ==> final(self)@ == old(self)@,
            final(self).size() <= slot_count(),
    {
        proof {
            use_type_invariant(&*self);
            use_type_invariant(other);
            lemma_count_bound(self.flags@);
        }
        let ghost keep = |y: Symbol| with_epsilon || y != Symbol::Epsilon;
        let mut grew = false;
        let mut i: usize = 0;
        while i < 29
            invariant
                grew == (self.size() > old(self).size()),
                i <= 29,
                self.flags@.len() == slot_count(),
                other.flags@.len() == slot_count(),
                forall|j: int| 0 <= j < slot_count() ==> #[trigger] self.flags@[j] == (old(self).flags@[j] || (j < i && other.flags@[j] && (with_epsilon || j != 28))),
                self.size() >= old(self).size(),
                self.size() == old(self).size() ==> self.flags@ == old(self).flags@,
                self.size() <= slot_count(),
            decreases 29 - i,
        {
            if other.flags[i] && (with_epsilon || i != 28) && !self.flags[i] {
                let ghost before = self.flags@;
                let mut flags = self.flags.clone();
                assert(flags@ =~= before);
                flags.set(i, true);
                *self = SymbolSet { flags };
                proof {
                    lemma_count_set(before, i as int);
                    lemma_count_bound(self.flags@);
                }
                grew = true;
            }
            i = i + 1;
        }
        proof {
            assert forall|y: Symbol| self@.contains(y) == (old(self)@ + other@.filter(keep)).contains(y) by {
                lemma_slot(y);
            }
            assert(self@ =~= old(self)@ + other@.filter(keep));
            if self.size() == old(self).size() {
                assert(self@ =~= old(self)@);
            }
        }
        grew
    }
}

} // verus!

verus! {

/// The sum of the sizes of the sets present.
pub open spec fn total_size(es: Seq<Option<SymbolSet>>) -> nat
    decreases es.len(),
{
    if es.len() == 0 {
        0
    } else {
        total_size(es.drop_last()) + match es.last() {
            Some(s) => s.size(),
            None => 0,
        }
    }
}

proof fn lemma_total_update(es: Seq<Option<SymbolSet>>, i: int, x: Option<SymbolSet>)
    requires
        0 <= i < es.len(),
    ensures
        total_size(es.update(i, x)) + match es[i] {
            Some(s) => s.size(),
            None => 0,
        } == total_size(es) + match x {
            Some(s) => s.size(),
            None => 0,
        },
    decreases es.len(),
{
    let t = es.update(i, x);
    if i == es.len() - 1 {
        assert(t.drop_last() =~= es.drop_last());
    } else {
        assert(t.drop_last() =~= es.drop_last().update(i, x));
        lemma_total_update(es.drop_last(), i, x);
    }
}

proof fn lemma_total_bound(es: Seq<Option<SymbolSet>>, bound: nat)
    requires
        forall|i: int| 0 <= i < es.len() ==> (#[trigger] es[i] matches Some(s) ==> s.size() <= bound),
    ensures
        total_size(es) <= es.len() * bound,
    decreases es.len(),
{
    if es.len() > 0 {
        lemma_total_bound(es.drop_last(), bound);
        assert(es.last() == es[es.len() - 1]);
        assert((es.len() - 1) * bound + bound == es.len() * bound) by (nonlinear_arith);
    }
}

/// A set of terminals and ε for each nonterminal that has an entry.
pub struct SymbolSets {
    entries: Vec<Option<SymbolSet>>,
}

impl View for SymbolSets {
    type V = Map<NonTerminal, Set<Symbol>>;

    closed spec fn view(&self) -> Map<NonTerminal, Set<Symbol>> {
        Map::new(
            |n: NonTerminal| self.entries@[nonterminal_index(n)] is Some,
            |n: NonTerminal| self.entries@[nonterminal_index(n)]->0@,
        )
    }
}

impl SymbolSets {
    /// One entry slot per nonterminal, each set within the slot count.
    pub closed spec fn wf(&self) -> bool {
        &&& self.entries@.len() == nonterminal_count()
        &&& forall|i: int|
            0 <= i < self.entries@.len() ==> (#[trigger] self.entries@[i] matches Some(s)
                ==> s.size() <= slot_count())
    }

    /// The sum of the sizes of the sets, as a measure that grows with each
    /// insertion.
    pub closed spec fn total(&self) -> nat {
        total_size(self.entries@)
    }

    /// The size of the set of `n`.
    pub closed spec fn entry_size(&self, n: NonTerminal) -> nat {
        match self.entries@[nonterminal_index(n)] {
            Some(s) => s.size(),
            None => 0,
        }
    }

    /// No entry.
    pub fn new() -> (m: Self)
        ensures
            m.wf(),
            m@ == Map::<NonTerminal, Set<Symbol>>::empty(),
            m.total() == 0,
    {
        let mut entries: Vec<Option<SymbolSet>> = Vec::new();
        let mut k: usize = 0;
        while k < 28
            invariant
                k <= 28,
                entries@.len() == k,
                forall|i: int| 0 <= i < k ==> entries@[i] is None,
                total_size(entries@) == 0,
            decreases 28 - k,
        {
            let ghost before = entries@;
            entries.push(None);
            assert(entries@.drop_last() =~= before);
            k = k + 1;
        }
        let m = SymbolSets { entries };
        assert forall|n: NonTerminal| !m@.dom().contains(n) by {
            lemma_nonterminal_index_injective(n, n);
        }
        assert(m@ =~= Map::<NonTerminal, Set<Symbol>>::empty());
        m
    }

    /// The total stays within one full set per nonterminal.
    pub fn check_total(&self)
        requires
            self.wf(),
        ensures
            self.total() <= nonterminal_count() * slot_count(),
    {
        proof {
            lemma_total_bound(self.entries@, slot_count());
        }
    }

    /// The set of `n`, if it has an entry.
    pub fn get(&self, n: NonTerminal) -> (r: Option<&SymbolSet>)
        requires
            self.wf(),
        ensures
            match r {
                Some(s) => self@.dom().contains(n) && s@ == self@[n] && s.size() == self.entry_size(
                    n,
                ),
                None => !self@.dom().contains(n),
            },
    {
        proof {
            lemma_nonterminal_index_injective(n, n);
        }
        match &self.entries[n.index()] {
            Some(s) => Some(s),
            None => None,
        }
    }

    /// Sets the entry of `n` to `set`.
    pub fn put(&mut self, n: NonTerminal, set: SymbolSet)
        requires
            old(self).wf(),
            set.size() <= slot_count(),
        ensures
            final(self).wf(),
            final(self)@ == old(self)@.insert(n, set@),
            final(self).total() + old(self).entry_size(n) == old(self).total() + set.size(),
            forall|m: NonTerminal| m != n ==> final(self).entry_size(m) == old(self).entry_size(m),
            final(self).entry_size(n) == set.size(),
    {
        proof {
            lemma_nonterminal_index_injective(n, n);
        }
        let i = n.index();
        let ghost before = self.entries@;
        let ghost x = Some(set);
        self.entries.set(i, Some(set));
        proof {
            assert forall|j: int| 0 <= j < self.entries@.len() implies (
            #[trigger] self.entries@[j] matches Some(s) ==> s.size() <= slot_count()) by {
                if j != i {
                    assert(self.entries@[j] == before[j]);
                }
            }
            lemma_total_update(before, i as int, x);
            assert forall|m: NonTerminal| m != n implies self.entry_size(m) == old(self).entry_size(m) by {
                lemma_nonterminal_index_injective(m, n);
            }
            assert forall|m: NonTerminal| #![auto] self@.dom().contains(m) == old(self)@.insert(n, set@).dom().contains(m) by {
                lemma_nonterminal_index_injective(m, n);
            }
            assert forall|m: NonTerminal| #![auto] self@.dom().contains(m) implies self@[m] == old(self)@.insert(n, set@)[m] by {
                lemma_nonterminal_index_injective(m, n);
            }
            assert(self@ =~= old(self)@.insert(n, set@));
        }
    }
}

} // verus!
