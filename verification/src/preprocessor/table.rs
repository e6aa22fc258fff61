//! The macros that are defined, by name.

use crate::preprocessor::macros::{MacroDefine, MacroModel};
use crate::text;
use vstd::prelude::*;
use vstd::string::*;

verus! {

/// Macros, each under a name of its own.
#[derive(Debug)]
pub struct MacroTable {
    entries: Vec<(String, MacroDefine)>,
}

impl View for MacroTable {
    type V = Map<Seq<u8>, MacroModel>;

    closed spec fn view(&self) -> Map<Seq<u8>, MacroModel> {
        Map::new(
            |k: Seq<u8>| has_key(self.entries@, k),
            |k: Seq<u8>| self.entries@[key_index(self.entries@, k)].1@,
        )
    }
}

spec fn has_key(es: Seq<(String, MacroDefine)>, k: Seq<u8>) -> bool {
    exists|i: int| 0 <= i < es.len() && text::bytes_of((#[trigger] es[i]).0) == k
}

spec fn key_index(es: Seq<(String, MacroDefine)>, k: Seq<u8>) -> int {
    choose|i: int| 0 <= i < es.len() && text::bytes_of((#[trigger] es[i]).0) == k
}

spec fn distinct(es: Seq<(String, MacroDefine)>) -> bool {
    forall|i: int, j: int|
        0 <= i < es.len() && 0 <= j < es.len() && i != j ==> text::bytes_of((#[trigger] es[i]).0)
            != text::bytes_of((#[trigger] es[j]).0)
}

impl MacroTable {
    /// The invariant: no two macros have the same name.
    pub closed spec fn wf(&self) -> bool {
        distinct(self.entries@)
    }

    /// A table of no macros.
    pub fn new() -> (r: Self)
        ensures
            r.wf(),
            r@ == Map::<Seq<u8>, MacroModel>::empty(),
    {
        let r = MacroTable { entries: Vec::new() };
        assert(r@ =~= Map::<Seq<u8>, MacroModel>::empty());
        r
    }

    fn position(&self, name: &str) -> (r: Option<usize>)
        ensures
            r matches Some(i) ==> i < self.entries@.len() && text::bytes_of(
                self.entries@[i as int].0,
            ) == name.spec_bytes(),
            r is None ==> !has_key(self.entries@, name.spec_bytes()),
    {
        let mut i: usize = 0;
        while i < self.entries.len()
            invariant
                i <= self.entries@.len(),
                forall|k: int|
                    0 <= k < i ==> text::bytes_of((#[trigger] self.entries@[k]).0)
                        != name.spec_bytes(),
            decreases self.entries@.len() - i,
        {
            if text::bytes_eq(self.entries[i].0.as_str().as_bytes(), name.as_bytes()) {
                return Some(i);
            }
            i += 1;
        }
        None
    }

    /// The macro with a name.
    pub fn get(&self, name: &str) -> (r: Option<&MacroDefine>)
        requires
            self.wf(),
        ensures
            r is Some <==> self@.contains_key(name.spec_bytes()),
            r matches Some(m) ==> m@ == self@[name.spec_bytes()],
    {
        match self.position(name) {
            Some(i) => {
                assert(self.entries@[i as int] == self.entries@[key_index(
                    self.entries@,
                    name.spec_bytes(),
                )]);
                Some(&self.entries[i].1)
            },
            None => None,
        }
    }

    /// Whether there is a macro with a name.
    pub fn contains_key(&self, name: &str) -> (r: bool)
        ensures
            r == self@.contains_key(name.spec_bytes()),
    {
        match self.position(name) {
            Some(i) => {
                assert(text::bytes_of(self.entries@[i as int].0) == name.spec_bytes());
                true
            },
            None => false,
        }
    }

    /// Puts a macro under a name, and returns the one that stood there.
    pub fn insert(&mut self, name: String, define: MacroDefine) -> (r: Option<MacroDefine>)
        requires
            old(self).wf(),
        ensures
            final(self).wf(),
            final(self)@ == old(self)@.insert(text::bytes_of(name), define@),
            r is Some <==> old(self)@.contains_key(text::bytes_of(name)),
            r matches Some(m) ==> m@ == old(self)@[text::bytes_of(name)],
    {
        let ghost key = text::bytes_of(name);
        let ghost before = self.entries@;
        match self.position(name.as_str()) {
            Some(i) => {
                let mut entry = (name, define);
                std::mem::swap(&mut self.entries[i], &mut entry);
                proof {
                    let after = self.entries@;
                    assert(before[i as int] == before[key_index(before, key)]);
                    assert forall|k: Seq<u8>| has_key(after, k) == has_key(before, k) by {
                        if has_key(before, k) {
                            let j = key_index(before, k);
                            assert(text::bytes_of(after[j].0) == k);
                        }
                        if has_key(after, k) {
                            let j = key_index(after, k);
                            assert(text::bytes_of(before[j].0) == k);
                        }
                    }
                    assert forall|k: Seq<u8>| #[trigger] self@.contains_key(k) implies self@[k]
                        == old(self)@.insert(key, define@)[k] by {
                        let j = key_index(after, k);
                        assert(text::bytes_of(after[j].0) == k);
                        if k == key {
                            assert(text::bytes_of(after[i as int].0) == k);
                            assert(j == i);
                        } else {
                            let l = key_index(before, k);
                            assert(has_key(before, k));
                            assert(text::bytes_of(before[l].0) == k);
                            assert(l != i);
                            assert(text::bytes_of(after[l].0) == k);
                            assert(j == l);
                        }
                    }
                    assert(self@ =~= old(self)@.insert(key, define@));
                }
                Some(entry.1)
            },
            None => {
                self.entries.push((name, define));
                proof {
                    let after = self.entries@;
                    let n = before.len() as int;
                    assert(text::bytes_of(after[n].0) == key);
                    assert forall|k: Seq<u8>| has_key(after, k) == (has_key(before, k) || k == key) by {
                        if has_key(before, k) {
                            let j = key_index(before, k);
                            assert(text::bytes_of(after[j].0) == k);
                        }
                        if has_key(after, k) {
                            let j = key_index(after, k);
                            if j < n {
                                assert(text::bytes_of(before[j].0) == k);
                            }
                        }
                    }
                    assert forall|k: Seq<u8>| #[trigger] self@.contains_key(k) implies self@[k]
                        == old(self)@.insert(key, define@)[k] by {
                        let j = key_index(after, k);
                        assert(text::bytes_of(after[j].0) == k);
                        if k == key {
                            assert(j == n) by {
                                if j < n {
                                    assert(text::bytes_of(before[j].0) == key);
                                }
                            }
                        } else {
                            let l = key_index(before, k);
                            assert(has_key(before, k));
                            assert(text::bytes_of(before[l].0) == k);
                            assert(text::bytes_of(after[l].0) == k);
                            assert(j == l);
                        }
                    }
                    assert(self@ =~= old(self)@.insert(key, define@));
                }
                None
            },
        }
    }

    /// Takes out the macro with a name, if there is one.
    pub fn remove(&mut self, name: &str)
        requires
            old(self).wf(),
        ensures
            final(self).wf(),
            final(self)@ == old(self)@.remove(name.spec_bytes()),
    {
        let ghost key = name.spec_bytes();
        let ghost before = self.entries@;
        if let Some(i) = self.position(name) {
            self.entries.remove(i);
            proof {
                let after = self.entries@;
                assert forall|k: Seq<u8>| has_key(after, k) == (has_key(before, k) && k != key) by {
                    if has_key(before, k) && k != key {
                        let j = key_index(before, k);
                        assert(text::bytes_of(before[j].0) == k);
                        let l = if j < i {
                            j
                        } else {
                            j - 1
                        };
                        assert(text::bytes_of(after[l].0) == k);
                    }
                    if has_key(after, k) {
                        let l = key_index(after, k);
                        assert(text::bytes_of(after[l].0) == k);
                        let j = if l < i {
                            l
                        } else {
                            l + 1
                        };
                        assert(after[l] == before[j]);
                        assert(text::bytes_of(before[j].0) == k);
                    }
                }
                assert forall|a: int, b: int|
                    0 <= a < after.len() && 0 <= b < after.len() && a != b implies text::bytes_of(
                    (#[trigger] after[a]).0,
                ) != text::bytes_of((#[trigger] after[b]).0) by {
                    let x = if a < i {
                        a
                    } else {
                        a + 1
                    };
                    let y = if b < i {
                        b
                    } else {
                        b + 1
                    };
                    assert(after[a] == before[x] && after[b] == before[y]);
                }
                assert forall|k: Seq<u8>| #[trigger] self@.contains_key(k) implies self@[k] == old(
                    self,
                )@.remove(key)[k] by {
                    let l = key_index(after, k);
                    assert(text::bytes_of(after[l].0) == k);
                    let j = if l < i {
                        l
                    } else {
                        l + 1
                    };
                    assert(after[l] == before[j]);
                    assert(text::bytes_of(before[j].0) == k);
                    let h = key_index(before, k);
                    assert(has_key(before, k));
                    assert(text::bytes_of(before[h].0) == k);
                    assert(h == j);
                }
            }
        }
        assert(self@ =~= old(self)@.remove(key));
    }

    /// Takes out every macro.
    pub fn clear(&mut self)
        ensures
            final(self).wf(),
            final(self)@ == Map::<Seq<u8>, MacroModel>::empty(),
    {
        self.entries.clear();
        assert(self@ =~= Map::<Seq<u8>, MacroModel>::empty());
    }
}

impl Clone for MacroTable {
    fn clone(&self) -> (r: Self)
        ensures
            self.wf() ==> r.wf() && r@ == self@,
    {
        let mut entries: Vec<(String, MacroDefine)> = Vec::new();
        let mut i: usize = 0;
        while i < self.entries.len()
            invariant
                i <= self.entries@.len(),
                entries@.len() == i,
                forall|k: int|
                    0 <= k < i ==> (#[trigger] entries@[k]).0 == self.entries@[k].0
                        && entries@[k].1@ == self.entries@[k].1@,
            decreases self.entries@.len() - i,
        {
            entries.push((self.entries[i].0.clone(), self.entries[i].1.clone()));
            i += 1;
        }
        let r = MacroTable { entries };
        proof {
            let a = self.entries@;
            let b = r.entries@;
            assert forall|k: Seq<u8>| has_key(a, k) == has_key(b, k) by {
                if has_key(a, k) {
                    let j = key_index(a, k);
                    assert(text::bytes_of(b[j].0) == k);
                }
                if has_key(b, k) {
                    let j = key_index(b, k);
                    assert(text::bytes_of(a[j].0) == k);
                }
            }
            if self.wf() {
                assert forall|k: Seq<u8>| #[trigger] self@.contains_key(k) implies self@[k]
                    == r@[k] by {
                    let x = key_index(a, k);
                    let y = key_index(b, k);
                    assert(has_key(b, k));
                    assert(text::bytes_of(a[x].0) == k);
                    assert(text::bytes_of(b[y].0) == k);
                    assert(a[y].0 == b[y].0);
                    assert(text::bytes_of(a[y].0) == k);
                    assert(x == y);
                }
                assert(r@ =~= self@);
            }
        }
        r
    }
}

} // verus!
