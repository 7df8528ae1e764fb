use vstd::prelude::*;

verus! {

/// The keys currently held down, by key code.
pub struct HeldKeys {
    keys: Vec<u32>,
}

impl HeldKeys {
    /// The set of held key codes.
    pub closed spec fn held(&self) -> Set<u32> {
        self.keys@.to_set()
    }

    pub closed spec fn wf(&self) -> bool {
        self.keys@.no_duplicates()
    }

    /// No key held.
    pub fn new() -> (h: HeldKeys)
        ensures
            h.wf(),
            h.held() == Set::<u32>::empty(),
    {
        let h = HeldKeys { keys: Vec::new() };
        assert(h.held() =~= Set::<u32>::empty());
        h
    }

    /// Records a key press (`pressed`) or release of `key`.
    pub fn process_input(&mut self, key: u32, pressed: bool)
        requires
            old(self).wf(),
        ensures
            final(self).wf(),
            pressed ==> final(self).held() == old(self).held().insert(key),
            !pressed ==> final(self).held() == old(self).held().remove(key),
    {
        let ghost old_keys = self.keys@;
        let mut i: usize = 0;
        while i < self.keys.len() && self.keys[i] != key
            invariant
                self.keys@ == old_keys,
                i <= self.keys@.len(),
                forall|j: int| 0 <= j < i ==> self.keys@[j] != key,
            decreases self.keys@.len() - i,
        {
            i = i + 1;
        }
        if pressed {
            if i == self.keys.len() {
                self.keys.push(key);
                proof {
                    assert(self.keys@.to_set() =~= old_keys.to_set().insert(key)) by {
                        assert forall|k: u32| self.keys@.contains(k) implies old_keys.contains(k) || k == key by {
                            let j = choose|j: int| 0 <= j < self.keys@.len() && self.keys@[j] == k;
                            if j < old_keys.len() {
                                assert(old_keys[j] == k);
                            }
                        }
                        assert forall|k: u32| old_keys.contains(k) implies self.keys@.contains(k) by {
                            let j = choose|j: int| 0 <= j < old_keys.len() && old_keys[j] == k;
                            assert(self.keys@[j] == k);
                        }
                        assert(self.keys@[old_keys.len() as int] == key);
                    }
                }
            } else {
                proof {
                    assert(old_keys.to_set() =~= old_keys.to_set().insert(key)) by {
                        assert(old_keys[i as int] == key);
                    }
                }
            }
        } else if i < self.keys.len() {
            self.keys.remove(i);
            proof {
                let ks = self.keys@;
                assert forall|a: int, b: int|
                    0 <= a < ks.len() && 0 <= b < ks.len() && a != b implies ks[a] != ks[b] by {
                    let a2 = if a < i { a } else { a + 1 };
                    let b2 = if b < i { b } else { b + 1 };
                    assert(ks[a] == old_keys[a2]);
                    assert(ks[b] == old_keys[b2]);
                }
                assert(ks.to_set() =~= old_keys.to_set().remove(key)) by {
                    assert forall|k: u32| ks.contains(k) implies old_keys.contains(k) && k != key by {
                        let j = choose|j: int| 0 <= j < ks.len() && ks[j] == k;
                        let j2 = if j < i { j } else { j + 1 };
                        assert(ks[j] == old_keys[j2]);
                        assert(old_keys[i as int] == key);
                    }
                    assert forall|k: u32| old_keys.contains(k) && k != key implies ks.contains(k) by {
                        let j = choose|j: int| 0 <= j < old_keys.len() && old_keys[j] == k;
                        assert(j != i);
                        let j2 = if j < i { j } else { j - 1 };
                        assert(ks[j2] == k);
                    }
                }
            }
        } else {
            proof {
                assert(old_keys.to_set() =~= old_keys.to_set().remove(key));
            }
        }
    }

    /// Whether `key` is held down.
    pub fn is_held(&self, key: u32) -> (b: bool)
        ensures
            b == self.held().contains(key),
    {
        let mut i: usize = 0;
        while i < self.keys.len()
            invariant
                i <= self.keys@.len(),
                forall|j: int| 0 <= j < i ==> self.keys@[j] != key,
            decreases self.keys@.len() - i,
        {
            if self.keys[i] == key {
                return true;
            }
            i = i + 1;
        }
        false
    }
}


/// Pressing a key and then releasing it leaves it not held and every other key as it was
/// before the press.
pub proof fn law_press_then_release(held: Set<u32>, key: u32)
    ensures
        !held.insert(key).remove(key).contains(key),
        forall|k: u32| k != key ==> (held.insert(key).remove(key).contains(k) <==> held.contains(k)),
{
}

} // verus!
