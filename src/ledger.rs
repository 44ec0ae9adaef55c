//! The balance ledger: a mapping from addresses to unsigned balances.
use vstd::prelude::*;

verus! {

/// The ledger's entries as mathematical values: address and balance.
pub type Entries = Seq<(Seq<char>, nat)>;

/// The balance that `s` gives to `a`: the sum of the entries for `a`.
pub open spec fn balance_in(s: Entries, a: Seq<char>) -> nat
    decreases s.len(),
{
    if s.len() == 0 {
        0
    } else {
        (if s.last().0 == a { s.last().1 } else { 0 }) + balance_in(s.drop_last(), a)
    }
}

/// The sum of all balances in `s`.
pub open spec fn total_in(s: Entries) -> nat
    decreases s.len(),
{
    if s.len() == 0 {
        0
    } else {
        s.last().1 + total_in(s.drop_last())
    }
}

/// No address holds two entries.
pub open spec fn keys_unique(s: Entries) -> bool {
    forall|i: int, j: int| 0 <= i < j < s.len() ==> s[i].0 != s[j].0
}

proof fn lemma_push(s: Entries, x: (Seq<char>, nat), a: Seq<char>)
    ensures
        balance_in(s.push(x), a) == balance_in(s, a) + (if x.0 == a { x.1 } else { 0 }),
        total_in(s.push(x)) == total_in(s) + x.1,
{
    assert(s.push(x).drop_last() =~= s);
}

proof fn lemma_update(s: Entries, i: int, v: nat, a: Seq<char>)
    requires
        0 <= i < s.len(),
    ensures
        balance_in(s.update(i, (s[i].0, v)), a) + (if s[i].0 == a { s[i].1 } else { 0 })
            == balance_in(s, a) + (if s[i].0 == a { v } else { 0 }),
        total_in(s.update(i, (s[i].0, v))) + s[i].1 == total_in(s) + v,
    decreases s.len(),
{
    let t = s.update(i, (s[i].0, v));
    if i == s.len() - 1 {
        assert(t.drop_last() =~= s.drop_last());
    } else {
        lemma_update(s.drop_last(), i, v, a);
        assert(t.drop_last() =~= s.drop_last().update(i, (s[i].0, v)));
    }
}

proof fn lemma_absent(s: Entries, a: Seq<char>)
    requires
        forall|j: int| 0 <= j < s.len() ==> s[j].0 != a,
    ensures
        balance_in(s, a) == 0,
    decreases s.len(),
{
    if s.len() > 0 {
        lemma_absent(s.drop_last(), a);
    }
}

proof fn lemma_unique_entry(s: Entries, i: int)
    requires
        keys_unique(s),
        0 <= i < s.len(),
    ensures
        balance_in(s, s[i].0) == s[i].1,
    decreases s.len(),
{
    if i == s.len() - 1 {
        lemma_absent(s.drop_last(), s[i].0);
    } else {
        lemma_unique_entry(s.drop_last(), i);
    }
}

proof fn lemma_balance_le_total(s: Entries, a: Seq<char>)
    ensures
        balance_in(s, a) <= total_in(s),
    decreases s.len(),
{
    if s.len() > 0 {
        lemma_balance_le_total(s.drop_last(), a);
    }
}

/// Balances keyed by address; an address without an entry holds zero.
pub struct Ledger {
    entries: Vec<(String, u64)>,
}

impl Ledger {
    /// The entries as mathematical values.
    pub closed spec fn entries(&self) -> Entries {
        self.entries@.map_values(|e: (String, u64)| (e.0@, e.1 as nat))
    }

    /// The balance of address `a`.
    pub open spec fn balance(&self, a: Seq<char>) -> nat {
        balance_in(self.entries(), a)
    }

    /// The sum of all balances.
    pub open spec fn total(&self) -> nat {
        total_in(self.entries())
    }

    pub open spec fn wf(&self) -> bool {
        &&& keys_unique(self.entries())
        &&& self.total() <= u64::MAX
    }

    /// A ledger in which every balance is zero.
    pub fn new() -> (r: Ledger)
        ensures
            r.wf(),
            r.total() == 0,
            forall|a: Seq<char>| r.balance(a) == 0,
    {
        let r = Ledger { entries: Vec::new() };
        assert(r.entries() =~= Seq::<(Seq<char>, nat)>::empty());
        r
    }

    /// An independent copy with the same entries.
    pub fn snapshot(&self) -> (r: Ledger)
        ensures
            r.entries() == self.entries(),
    {
        let mut entries: Vec<(String, u64)> = Vec::new();
        let mut i: usize = 0;
        while i < self.entries.len()
            invariant
                i <= self.entries.len(),
                entries@.len() == i,
                forall|j: int| 0 <= j < i ==> entries@[j].0@ == self.entries@[j].0@ && entries@[j].1 == self.entries@[j].1,
            decreases self.entries.len() - i,
        {
            entries.push((self.entries[i].0.clone(), self.entries[i].1));
            i += 1;
        }
        let r = Ledger { entries };
        assert(r.entries() =~= self.entries());
        r
    }

    /// Where `a` has an entry, its position.
    fn find(&self, a: &String) -> (r: Option<usize>)
        ensures
            match r {
                Some(i) => i < self.entries().len() && self.entries()[i as int].0 == a@,
                None => forall|j: int| 0 <= j < self.entries().len() ==> self.entries()[j].0 != a@,
            },
    {
        let mut i: usize = 0;
        while i < self.entries.len()
            invariant
                i <= self.entries.len(),
                forall|j: int| 0 <= j < i ==> self.entries()[j].0 != a@,
            decreases self.entries.len() - i,
        {
            if self.entries[i].0 == *a {
                return Some(i);
            }
            i += 1;
        }
        None
    }

    /// The balance of `a`; zero where it has no entry.
    pub fn balance_of(&self, a: &String) -> (r: u64)
        requires
            self.wf(),
        ensures
            r == self.balance(a@),
    {
        match self.find(a) {
            Some(i) => {
                proof {
                    lemma_unique_entry(self.entries(), i as int);
                }
                self.entries[i].1
            },
            None => {
                proof {
                    lemma_absent(self.entries(), a@);
                }
                0
            },
        }
    }

    /// Adds `amount` to the balance of `a`.
    pub fn credit(&mut self, a: &String, amount: u64)
        requires
            old(self).wf(),
            old(self).total() + amount <= u64::MAX,
        ensures
            final(self).wf(),
            final(self).total() == old(self).total() + amount,
            final(self).balance(a@) == old(self).balance(a@) + amount,
            forall|b: Seq<char>| b != a@ ==> final(self).balance(b) == old(self).balance(b),
    {
        let ghost s = self.entries();
        match self.find(a) {
            Some(i) => {
                proof {
                    lemma_unique_entry(s, i as int);
                    lemma_balance_le_total(s, a@);
                }
                let v = self.entries[i].1 + amount;
                self.entries.set(i, (a.clone(), v));
                proof {
                    assert(self.entries() =~= s.update(i as int, (s[i as int].0, v as nat)));
                    assert forall|b: Seq<char>| true implies
                        balance_in(self.entries(), b) + (if s[i as int].0 == b { s[i as int].1 } else { 0 })
                            == balance_in(s, b) + (if s[i as int].0 == b { v as nat } else { 0 }) by {
                        lemma_update(s, i as int, v as nat, b);
                    }
                    lemma_update(s, i as int, v as nat, a@);
                    assert(keys_unique(self.entries()));
                }
            },
            None => {
                self.entries.push((a.clone(), amount));
                proof {
                    assert(self.entries() =~= s.push((a@, amount as nat)));
                    assert forall|b: Seq<char>| true implies
                        balance_in(self.entries(), b) == balance_in(s, b) + (if a@ == b { amount as nat } else { 0 }) by {
                        lemma_push(s, (a@, amount as nat), b);
                    }
                    lemma_push(s, (a@, amount as nat), a@);
                    assert(keys_unique(self.entries()));
                }
            },
        }
    }

    /// Takes `amount` from the balance of `a`, which holds at least that much.
    pub fn debit(&mut self, a: &String, amount: u64)
        requires
            old(self).wf(),
            old(self).balance(a@) >= amount,
        ensures
            final(self).wf(),
            final(self).total() + amount == old(self).total(),
            final(self).balance(a@) + amount == old(self).balance(a@),
            forall|b: Seq<char>| b != a@ ==> final(self).balance(b) == old(self).balance(b),
    {
        let ghost s = self.entries();
        match self.find(a) {
            Some(i) => {
                proof {
                    lemma_unique_entry(s, i as int);
                }
                let v = self.entries[i].1 - amount;
                self.entries.set(i, (a.clone(), v));
                proof {
                    assert(self.entries() =~= s.update(i as int, (s[i as int].0, v as nat)));
                    assert forall|b: Seq<char>| true implies
                        balance_in(self.entries(), b) + (if s[i as int].0 == b { s[i as int].1 } else { 0 })
                            == balance_in(s, b) + (if s[i as int].0 == b { v as nat } else { 0 }) by {
                        lemma_update(s, i as int, v as nat, b);
                    }
                    lemma_update(s, i as int, v as nat, a@);
                    assert(keys_unique(self.entries()));
                }
            },
            None => {
                proof {
                    lemma_absent(s, a@);
                }
            },
        }
    }
}

} // verus!
