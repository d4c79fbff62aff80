//! The map from rule names to rule indices, kept in name order.
use vstd::prelude::*;
use vstd::utf8::encode_utf8;
use crate::text::{bytes_less, slice_less, lemma_bytes_less_total, lemma_bytes_less_trans};
use vstd::utf8::encode_utf8_decode_utf8;
use vstd::set_lib::{set_int_range, lemma_int_range, lemma_len_subset};

verus! {

/// The name of a rule as the bytes it is ordered by.
pub open spec fn name_bytes(k: Seq<char>) -> Seq<u8> {
    encode_utf8(k)
}

/// The model of the entries: names and rule indices.
pub open spec fn view_entries(s: Seq<(String, usize)>) -> Seq<(Seq<char>, usize)> {
    Seq::new(s.len(), |i: int| (s[i].0@, s[i].1))
}

/// The names are in strictly increasing byte order.
pub open spec fn sorted_names(s: Seq<(Seq<char>, usize)>) -> bool {
    forall|i: int, j: int| 0 <= i < j < s.len() ==> bytes_less(name_bytes(#[trigger] s[i].0), name_bytes(#[trigger] s[j].0))
}

/// The index stored for `k`, if any.
pub open spec fn lookup(s: Seq<(Seq<char>, usize)>, k: Seq<char>) -> Option<usize>
    decreases s.len(),
{
    if s.len() == 0 {
        None
    } else if s[0].0 == k {
        Some(s[0].1)
    } else {
        lookup(s.drop_first(), k)
    }
}

/// `lookup` finds the entry with that name.
pub proof fn lemma_lookup(s: Seq<(Seq<char>, usize)>, k: Seq<char>)
    requires
        sorted_names(s),
    ensures
        lookup(s, k) is Some <==> exists|i: int| 0 <= i < s.len() && s[i].0 == k,
        forall|i: int| 0 <= i < s.len() && s[i].0 == k ==> lookup(s, k) == Some(s[i].1),
    decreases s.len(),
{
    if s.len() > 0 {
        assert(sorted_names(s.drop_first())) by {
            assert forall|i: int, j: int| 0 <= i < j < s.drop_first().len() implies
                bytes_less(name_bytes(#[trigger] s.drop_first()[i].0), name_bytes(#[trigger] s.drop_first()[j].0)) by {
                assert(s.drop_first()[i] == s[i + 1]);
                assert(s.drop_first()[j] == s[j + 1]);
            }
        }
        lemma_lookup(s.drop_first(), k);
        if s[0].0 == k {
            assert forall|i: int| 0 <= i < s.len() && s[i].0 == k implies lookup(s, k) == Some(s[i].1) by {
                if i > 0 {
                    assert(bytes_less(name_bytes(s[0].0), name_bytes(s[i].0)));
                    lemma_bytes_less_total(name_bytes(s[0].0), name_bytes(s[0].0));
                }
            }
        } else {
            assert forall|i: int| 0 <= i < s.len() && s[i].0 == k implies lookup(s, k) == Some(s[i].1) by {
                assert(i > 0);
                assert(s.drop_first()[i - 1] == s[i]);
            }
            if exists|i: int| 0 <= i < s.len() && s[i].0 == k {
                let i = choose|i: int| 0 <= i < s.len() && s[i].0 == k;
                assert(s.drop_first()[i - 1] == s[i]);
            }
            if lookup(s, k) is Some {
                let i = choose|i: int| 0 <= i < s.drop_first().len() && s.drop_first()[i].0 == k;
                assert(s[i + 1] == s.drop_first()[i]);
            }
        }
    }
}

/// Different names have different bytes.
pub proof fn lemma_name_bytes_injective(a: Seq<char>, b: Seq<char>)
    requires
        name_bytes(a) == name_bytes(b),
    ensures
        a == b,
{
    encode_utf8_decode_utf8(a);
    encode_utf8_decode_utf8(b);
}

/// Maps rule names to rule indices; walked in name order.
pub struct RuleMap {
    entries: Vec<(String, usize)>,
}

impl RuleMap {
    /// The entries, in name order.
    pub closed spec fn entries(&self) -> Seq<(Seq<char>, usize)> {
        view_entries(self.entries@)
    }

    /// The index stored for `k`, if any.
    pub open spec fn get_spec(&self, k: Seq<char>) -> Option<usize> {
        lookup(self.entries(), k)
    }

    /// The entries are in strictly increasing name order.
    pub open spec fn wf(&self) -> bool {
        sorted_names(self.entries())
    }

    /// When each index names, in `names`, the name it is stored under and is
    /// below `n`, there are at most `n` names.
    pub proof fn lemma_len_bound(&self, n: nat, names: Seq<Seq<char>>)
        requires
            self.wf(),
            forall|k: Seq<char>| #[trigger] self.get_spec(k) is Some ==> self.get_spec(k)->0 < n
                && names[self.get_spec(k)->0 as int] == k,
        ensures
            self.entries().len() <= n,
    {
        let s = self.entries();
        let idxs: Seq<int> = Seq::new(s.len(), |a: int| s[a].1 as int);
        assert forall|a: int| 0 <= a < s.len() implies #[trigger] idxs[a] < n && names[idxs[a]] == s[a].0 by {
            lemma_lookup(s, s[a].0);
            assert(self.get_spec(s[a].0) == Some(s[a].1));
        }
        assert(idxs.no_duplicates()) by {
            assert forall|a: int, b: int| 0 <= a < idxs.len() && 0 <= b < idxs.len() && a != b implies idxs[a] != idxs[b] by {
                if idxs[a] == idxs[b] {
                    assert(s[a].0 == s[b].0);
                    lemma_bytes_less_total(name_bytes(s[a].0), name_bytes(s[a].0));
                    if a < b {
                        assert(bytes_less(name_bytes(s[a].0), name_bytes(s[b].0)));
                    } else {
                        assert(bytes_less(name_bytes(s[b].0), name_bytes(s[a].0)));
                    }
                }
            }
        }
        idxs.unique_seq_to_set();
        lemma_int_range(0, n as int);
        assert forall|x: int| idxs.to_set().contains(x) implies set_int_range(0, n as int).contains(x) by {
            let a = choose|a: int| 0 <= a < idxs.len() && idxs[a] == x;
            assert(idxs[a] < n);
        }
        lemma_len_subset(idxs.to_set(), set_int_range(0, n as int));
    }

    /// An empty map.
    pub fn new() -> (r: RuleMap)
        ensures
            r.entries() == Seq::<(Seq<char>, usize)>::empty(),
            r.wf(),
    {
        let r = RuleMap { entries: Vec::new() };
        assert(r.entries() =~= Seq::<(Seq<char>, usize)>::empty());
        r
    }

    /// The number of names.
    pub fn len(&self) -> (r: usize)
        ensures
            r == self.entries().len(),
    {
        self.entries.len()
    }

    /// The name and index of the `i`-th entry in name order.
    pub fn entry(&self, i: usize) -> (r: (&String, usize))
        requires
            i < self.entries().len(),
        ensures
            r.0@ == self.entries()[i as int].0,
            r.1 == self.entries()[i as int].1,
    {
        (&self.entries[i].0, self.entries[i].1)
    }

    /// The index stored for `name`, if any.
    pub fn get(&self, name: &str) -> (r: Option<usize>)
        requires
            self.wf(),
        ensures
            r == self.get_spec(name@),
    {
        let key = name.to_owned();
        let mut i: usize = 0;
        assert(self.entries().skip(0) =~= self.entries());
        while i < self.entries.len()
            invariant
                i <= self.entries@.len(),
                key@ == name@,
                lookup(self.entries(), name@) == lookup(self.entries().skip(i as int), name@),
            decreases self.entries.len() - i,
        {
            let ghost s = self.entries();
            proof {
                assert(s.skip(i as int).drop_first() =~= s.skip(i + 1));
                assert(s.skip(i as int)[0] == s[i as int]);
            }
            if self.entries[i].0 == key {
                return Some(self.entries[i].1);
            }
            i += 1;
        }
        None
    }

    /// Stores `idx` for `name`, in place of the index it had, if any.
    pub fn insert(&mut self, name: String, idx: usize)
        requires
            old(self).wf(),
        ensures
            final(self).wf(),
            forall|k: Seq<char>| #[trigger] final(self).get_spec(k) == if k == name@ { Some(idx) } else { old(self).get_spec(k) },
            final(self).entries().len() == old(self).entries().len() + if old(self).get_spec(name@) is Some { 0int } else { 1int },
    {
        let ghost s0 = self.entries();
        let mut pos: usize = 0;
        loop
            invariant
                pos <= self.entries@.len(),
                self.entries() == s0,
                forall|i: int| 0 <= i < pos ==> bytes_less(name_bytes(#[trigger] s0[i].0), name_bytes(name@)),
            ensures
                pos <= self.entries@.len(),
                self.entries() == s0,
                forall|i: int| 0 <= i < pos ==> bytes_less(name_bytes(#[trigger] s0[i].0), name_bytes(name@)),
                pos < self.entries@.len() ==> !bytes_less(name_bytes(s0[pos as int].0), name_bytes(name@)),
            decreases self.entries@.len() - pos,
        {
            if pos >= self.entries.len() {
                break;
            }
            if !slice_less(self.entries[pos].0.as_str().as_bytes(), name.as_str().as_bytes()) {
                break;
            }
            pos += 1;
        }
        proof { lemma_lookup(s0, name@); }
        if pos < self.entries.len() && self.entries[pos].0 == name {
            let e = self.entries.remove(pos);
            self.entries.insert(pos, (e.0, idx));
            proof {
                let s1 = self.entries();
                assert(s1 =~= s0.update(pos as int, (s0[pos as int].0, idx)));
                assert(sorted_names(s1)) by {
                    assert forall|i: int, j: int| 0 <= i < j < s1.len() implies bytes_less(name_bytes(#[trigger] s1[i].0), name_bytes(#[trigger] s1[j].0)) by {
                        assert(s1[i].0 == s0[i].0 && s1[j].0 == s0[j].0);
                    }
                }
                lemma_lookup(s1, name@);
                assert forall|k: Seq<char>| #[trigger] self.get_spec(k) == if k == name@ { Some(idx) } else { old(self).get_spec(k) } by {
                    lemma_lookup(s1, k);
                    lemma_lookup(s0, k);
                    if k != name@ {
                        if lookup(s0, k) is Some {
                            let i = choose|i: int| 0 <= i < s0.len() && s0[i].0 == k;
                            assert(s1[i] == s0[i]);
                        }
                        if lookup(s1, k) is Some {
                            let i = choose|i: int| 0 <= i < s1.len() && s1[i].0 == k;
                            assert(s1[i] == s0[i]);
                        }
                    } else {
                        assert(s1[pos as int].0 == k);
                    }
                }
            }
        } else {
            self.entries.insert(pos, (name, idx));
            proof {
                let s1 = self.entries();
                assert(s1 =~= s0.insert(pos as int, (name@, idx)));
                if pos < s0.len() {
                    assert(!bytes_less(name_bytes(s0[pos as int].0), name_bytes(name@)));
                    assert(s0[pos as int].0 != name@);
                    if name_bytes(s0[pos as int].0) == name_bytes(name@) {
                        lemma_name_bytes_injective(s0[pos as int].0, name@);
                    }
                    lemma_bytes_less_total(name_bytes(s0[pos as int].0), name_bytes(name@));
                    assert(bytes_less(name_bytes(name@), name_bytes(s0[pos as int].0)));
                }
                assert(sorted_names(s1)) by {
                    assert forall|i: int, j: int| 0 <= i < j < s1.len() implies bytes_less(name_bytes(#[trigger] s1[i].0), name_bytes(#[trigger] s1[j].0)) by {
                        if j < pos {
                            assert(s1[i] == s0[i] && s1[j] == s0[j]);
                        } else if j == pos {
                            assert(s1[i] == s0[i]);
                        } else if i == pos {
                            assert(s1[j] == s0[j - 1]);
                            if j - 1 > pos {
                                lemma_bytes_less_trans(name_bytes(name@), name_bytes(s0[pos as int].0), name_bytes(s0[j - 1].0));
                            }
                        } else if i < pos {
                            assert(s1[i] == s0[i] && s1[j] == s0[j - 1]);
                            if j - 1 > pos {
                                lemma_bytes_less_trans(name_bytes(name@), name_bytes(s0[pos as int].0), name_bytes(s0[j - 1].0));
                            }
                            if j - 1 >= pos {
                                lemma_bytes_less_trans(name_bytes(s0[i].0), name_bytes(name@), name_bytes(s0[j - 1].0));
                            }
                        } else {
                            assert(s1[i] == s0[i - 1] && s1[j] == s0[j - 1]);
                        }
                    }
                }
                assert(lookup(s0, name@) is None) by {
                    if lookup(s0, name@) is Some {
                        let i = choose|i: int| 0 <= i < s0.len() && s0[i].0 == name@;
                        if i < pos {
                            lemma_bytes_less_total(name_bytes(name@), name_bytes(name@));
                        } else if i > pos {
                            lemma_bytes_less_trans(name_bytes(name@), name_bytes(s0[pos as int].0), name_bytes(s0[i].0));
                            lemma_bytes_less_total(name_bytes(name@), name_bytes(name@));
                        }
                    }
                }
                lemma_lookup(s1, name@);
                assert forall|k: Seq<char>| #[trigger] self.get_spec(k) == if k == name@ { Some(idx) } else { old(self).get_spec(k) } by {
                    lemma_lookup(s1, k);
                    lemma_lookup(s0, k);
                    if k != name@ {
                        if lookup(s0, k) is Some {
                            let i = choose|i: int| 0 <= i < s0.len() && s0[i].0 == k;
                            if i < pos {
                                assert(s1[i] == s0[i]);
                            } else {
                                assert(s1[i + 1] == s0[i]);
                            }
                        }
                        if lookup(s1, k) is Some {
                            let i = choose|i: int| 0 <= i < s1.len() && s1[i].0 == k;
                            if i < pos {
                                assert(s1[i] == s0[i]);
                            } else {
                                assert(i != pos);
                                assert(s1[i] == s0[i - 1]);
                            }
                        }
                    } else {
                        assert(s1[pos as int].0 == k);
                    }
                }
            }
        }
    }

    /// Removes `name`; returns whether it had an index.
    pub fn remove(&mut self, name: &str) -> (r: bool)
        requires
            old(self).wf(),
        ensures
            final(self).wf(),
            r == old(self).get_spec(name@) is Some,
            forall|k: Seq<char>| #[trigger] final(self).get_spec(k) == if k == name@ { None } else { old(self).get_spec(k) },
            final(self).entries().len() == old(self).entries().len() - if r { 1int } else { 0int },
    {
        let ghost s0 = self.entries();
        let key = name.to_owned();
        proof { lemma_lookup(s0, name@); }
        let mut i: usize = 0;
        while i < self.entries.len()
            invariant
                i <= self.entries@.len(),
                self.entries() == s0,
                key@ == name@,
                sorted_names(s0),
                old(self).entries() == s0,
                forall|j: int| 0 <= j < i ==> #[trigger] s0[j].0 != name@,
            decreases self.entries.len() - i,
        {
            if self.entries[i].0 == key {
                self.entries.remove(i);
                proof {
                    let s1 = self.entries();
                    lemma_lookup(s0, name@);
                    assert(s0[i as int].0 == name@);
                    assert(s1 =~= s0.remove(i as int));
                    assert(sorted_names(s1)) by {
                        assert forall|a: int, b: int| 0 <= a < b < s1.len() implies bytes_less(name_bytes(#[trigger] s1[a].0), name_bytes(#[trigger] s1[b].0)) by {
                            let a0 = if a < i { a } else { a + 1 };
                            let b0 = if b < i { b } else { b + 1 };
                            assert(s1[a] == s0[a0] && s1[b] == s0[b0]);
                        }
                    }
                    assert forall|k: Seq<char>| #[trigger] self.get_spec(k) == if k == name@ { None } else { old(self).get_spec(k) } by {
                        lemma_lookup(s1, k);
                        lemma_lookup(s0, k);
                        if lookup(s1, k) is Some {
                            let j = choose|j: int| 0 <= j < s1.len() && s1[j].0 == k;
                            let j0 = if j < i { j } else { j + 1 };
                            assert(s1[j] == s0[j0]);
                            if k == name@ {
                                assert(s0[i as int].0 == name@);
                                if j0 != i {
                                    let (lo, hi) = if j0 < i { (j0, i as int) } else { (i as int, j0) };
                                    assert(bytes_less(name_bytes(s0[lo].0), name_bytes(s0[hi].0)));
                                    lemma_bytes_less_total(name_bytes(name@), name_bytes(name@));
                                }
                            }
                        }
                        if k != name@ && lookup(s0, k) is Some {
                            let j = choose|j: int| 0 <= j < s0.len() && s0[j].0 == k;
                            assert(j != i);
                            let j1 = if j < i { j } else { j - 1 };
                            assert(s1[j1] == s0[j]);
                        }
                    }
                }
                return true;
            }
            i += 1;
        }
        true == false
    }

    /// Whether `name` has an index.
    pub fn contains_key(&self, name: &str) -> (r: bool)
        requires
            self.wf(),
        ensures
            r == self.get_spec(name@) is Some,
    {
        self.get(name).is_some()
    }
}

} // verus!
