use vstd::prelude::*;

verus! {

/// Why a library cannot be recorded.
#[derive(Clone, Copy, Debug, PartialEq, Eq)]
pub enum RegistryError {
    /// The name holds a NUL character, so no C string can carry it.
    InteriorNul,
}

/// The attached images, by base address, with their names, for a tracing
/// tool to enumerate.
#[derive(Clone, Debug)]
pub struct LibraryRegistry {
    pub entries: Vec<(u64, String)>,
}

/// Whether `s` holds a NUL character.
fn has_nul(s: &str) -> (r: bool)
    ensures
        r == s@.contains('\0'),
{
    let n = s.unicode_len();
    let mut k: usize = 0;
    while k < n
        invariant
            0 <= k <= n,
            n == s@.len(),
            forall|j: int| 0 <= j < k ==> s@[j] != '\0',
        decreases n - k,
    {
        if s.get_char(k) == '\0' {
            return true;
        }
        k = k + 1;
    }
    false
}

impl LibraryRegistry {
    /// The base address to name map.
    pub open spec fn view(&self) -> Map<u64, Seq<char>> {
        Map::new(
            |b: u64| exists|i: int| 0 <= i < self.entries@.len() && self.entries@[i].0 == b,
            |b: u64| self.entries@[choose|i: int| 0 <= i < self.entries@.len() && self.entries@[i].0 == b].1@,
        )
    }

    /// Each base address occurs once.
    pub open spec fn wf(&self) -> bool {
        forall|i: int, j: int|
            0 <= i < j < self.entries@.len() ==> self.entries@[i].0 != self.entries@[j].0
    }

    /// An empty registry.
    pub fn new() -> (r: LibraryRegistry)
        ensures
            r.wf(),
            r.view() == Map::<u64, Seq<char>>::empty(),
    {
        let r = LibraryRegistry { entries: Vec::new() };
        assert(r.view() =~= Map::<u64, Seq<char>>::empty());
        r
    }

    fn position(&self, base_address: u64) -> (r: Option<usize>)
        requires
            self.wf(),
        ensures
            r is None <==> !self.view().contains_key(base_address),
            r matches Some(i) ==> i < self.entries@.len() && self.entries@[i as int].0 == base_address,
    {
        let mut i: usize = 0;
        while i < self.entries.len()
            invariant
                0 <= i <= self.entries@.len(),
                forall|j: int| 0 <= j < i ==> self.entries@[j].0 != base_address,
            decreases self.entries@.len() - i,
        {
            if self.entries[i].0 == base_address {
                return Some(i);
            }
            i = i + 1;
        }
        None
    }

    /// Records the image at `base_address` under `name`, replacing an
    /// earlier record of that address. Fails for a name with a NUL.
    pub fn add_library(&mut self, base_address: u64, name: &str) -> (r: Result<(), RegistryError>)
        requires
            old(self).wf(),
        ensures
            final(self).wf(),
            r is Err <==> name@.contains('\0'),
            r is Err ==> final(self).view() == old(self).view(),
            r is Ok ==> final(self).view() == old(self).view().insert(base_address, name@),
    {
        if has_nul(name) {
            return Err(RegistryError::InteriorNul);
        }
        let ghost v0 = self.view();
        let ghost e0 = self.entries@;
        let owned = name.to_owned();
        match self.position(base_address) {
            Some(i) => {
                self.entries.set(i, (base_address, owned));
                proof {
                    let e = self.entries@;
                    assert forall|b: u64| #[trigger] self.view().contains_key(b) <==> v0.insert(base_address, name@).contains_key(b) by {
                        if v0.contains_key(b) && b != base_address {
                            let j = choose|j: int| 0 <= j < e0.len() && e0[j].0 == b;
                            assert(e[j] == e0[j]);
                        }
                        if self.view().contains_key(b) && b != base_address {
                            let j = choose|j: int| 0 <= j < e.len() && e[j].0 == b;
                            assert(e[j] == e0[j]);
                        }
                        assert(e[i as int].0 == base_address);
                    }
                    assert forall|b: u64| #[trigger] self.view().contains_key(b) implies self.view()[b] == v0.insert(base_address, name@)[b] by {
                        let j = choose|j: int| 0 <= j < e.len() && e[j].0 == b;
                        if b == base_address {
                            assert(j == i);
                        } else {
                            assert(e[j] == e0[j]);
                            let j0 = choose|j0: int| 0 <= j0 < e0.len() && e0[j0].0 == b;
                            assert(j0 == j);
                        }
                    }
                    assert(self.view() =~= v0.insert(base_address, name@));
                }
            },
            None => {
                self.entries.push((base_address, owned));
                proof {
                    let e = self.entries@;
                    assert forall|b: u64| #[trigger] self.view().contains_key(b) <==> v0.insert(base_address, name@).contains_key(b) by {
                        if v0.contains_key(b) {
                            let j = choose|j: int| 0 <= j < e0.len() && e0[j].0 == b;
                            assert(e[j] == e0[j]);
                        }
                        if self.view().contains_key(b) && b != base_address {
                            let j = choose|j: int| 0 <= j < e.len() && e[j].0 == b;
                            assert(e[j] == e0[j]);
                        }
                        assert(e[e0.len() as int].0 == base_address);
                    }
                    assert forall|b: u64| #[trigger] self.view().contains_key(b) implies self.view()[b] == v0.insert(base_address, name@)[b] by {
                        let j = choose|j: int| 0 <= j < e.len() && e[j].0 == b;
                        if b == base_address {
                            assert(j == e0.len());
                        } else {
                            assert(e[j] == e0[j]);
                            let j0 = choose|j0: int| 0 <= j0 < e0.len() && e0[j0].0 == b;
                            assert(j0 == j);
                        }
                    }
                    assert(self.view() =~= v0.insert(base_address, name@));
                }
            },
        }
        Ok(())
    }

    /// Forgets the image at `base_address`.
    pub fn remove_library(&mut self, base_address: u64)
        requires
            old(self).wf(),
        ensures
            final(self).wf(),
            final(self).view() == old(self).view().remove(base_address),
    {
        let ghost v0 = self.view();
        let ghost e0 = self.entries@;
        match self.position(base_address) {
            Some(i) => {
                self.entries.remove(i);
                proof {
                    let e = self.entries@;
                    assert(e =~= e0.remove(i as int));
                    assert forall|b: u64| #[trigger] self.view().contains_key(b) <==> v0.remove(base_address).contains_key(b) by {
                        if v0.contains_key(b) && b != base_address {
                            let j = choose|j: int| 0 <= j < e0.len() && e0[j].0 == b;
                            if j < i {
                                assert(e[j] == e0[j]);
                            } else {
                                assert(e[j - 1] == e0[j]);
                            }
                        }
                        if self.view().contains_key(b) {
                            let j = choose|j: int| 0 <= j < e.len() && e[j].0 == b;
                            if j < i {
                                assert(e[j] == e0[j]);
                            } else {
                                assert(e[j] == e0[j + 1]);
                            }
                        }
                    }
                    assert forall|b: u64| #[trigger] self.view().contains_key(b) implies self.view()[b] == v0.remove(base_address)[b] by {
                        let j = choose|j: int| 0 <= j < e.len() && e[j].0 == b;
                        let j0 = choose|j0: int| 0 <= j0 < e0.len() && e0[j0].0 == b;
                        if j < i {
                            assert(e[j] == e0[j]);
                            assert(j0 == j);
                        } else {
                            assert(e[j] == e0[j + 1]);
                            assert(j0 == j + 1);
                        }
                    }
                    assert(self.view() =~= v0.remove(base_address));
                }
            },
            None => {
                assert(self.view() =~= v0.remove(base_address));
            },
        }
    }
}

} // verus!
