//! Which backend computes for a device.

use super::dtype::Device;
use vstd::prelude::*;

verus! {

/// The backends of devices, at most one for each.
#[derive(Debug)]
pub struct BackendRegistry<B> {
    entries: Vec<(Device, B)>,
}

/// The place of a device in a list of entries.
spec fn is_entry<B>(entries: Seq<(Device, B)>, device: Device, i: int) -> bool {
    0 <= i < entries.len() && entries[i].0 == device
}

impl<B> View for BackendRegistry<B> {
    type V = Map<Device, B>;

    closed spec fn view(&self) -> Map<Device, B> {
        Map::new(
            |device: Device| exists|i: int| is_entry(self.entries@, device, i),
            |device: Device| self.entries@[choose|i: int| is_entry(self.entries@, device, i)].1,
        )
    }
}

impl<B> BackendRegistry<B> {
    /// No device is entered twice.
    pub closed spec fn well_formed(&self) -> bool {
        forall|i: int, j: int|
            0 <= i < j < self.entries@.len() ==> (#[trigger] self.entries@[i]).0 != (
            #[trigger] self.entries@[j]).0
    }

    /// No device has a backend.
    pub fn new() -> (registry: Self)
        ensures
            registry.well_formed(),
            registry@ == Map::<Device, B>::empty(),
    {
        let registry = BackendRegistry { entries: Vec::new() };
        assert(registry@ =~= Map::<Device, B>::empty());
        registry
    }

    /// The place of a device, if it is entered.
    fn find(&self, device: &Device) -> (found: Option<usize>)
        requires
            self.well_formed(),
        ensures
            found is Some <==> self@.dom().contains(*device),
            found matches Some(i) ==> is_entry(self.entries@, *device, i as int)
                && self@[*device] == self.entries@[i as int].1,
    {
        for i in 0..self.entries.len()
            invariant
                self.well_formed(),
                forall|j: int| 0 <= j < i ==> (#[trigger] self.entries@[j]).0 != *device,
        {
            if self.entries[i].0 == *device {
                proof {
                    assert(is_entry(self.entries@, *device, i as int));
                    let k = choose|k: int| is_entry(self.entries@, *device, k);
                    assert(k == i) by {
                        if k < i {
                            assert(self.entries@[k].0 != self.entries@[i as int].0);
                        } else if i < k {
                            assert(self.entries@[i as int].0 != self.entries@[k].0);
                        }
                    }
                }
                return Some(i);
            }
        }
        assert forall|j: int| !is_entry(self.entries@, *device, j) by {}
        None
    }

    /// Lets a backend compute for a device. It takes the place of the one before.
    pub fn register_backend(&mut self, device: Device, backend: B)
        requires
            old(self).well_formed(),
        ensures
            final(self).well_formed(),
            final(self)@ == old(self)@.insert(device, backend),
    {
        let ghost before = self.entries@;
        let ghost known = self@;
        match self.find(&device) {
            Some(i) => {
                self.entries.set(i, (device, backend));
                proof {
                    let after = self.entries@;
                    assert(after =~= before.update(i as int, (device, backend)));
                    assert(self.well_formed());
                    assert forall|d: Device| #[trigger] self@.dom().contains(d) <==> known.insert(
                        device,
                        backend,
                    ).dom().contains(d) by {
                        if known.dom().contains(d) {
                            let k = choose|k: int| is_entry(before, d, k);
                            assert(is_entry(after, d, k));
                        }
                        if self@.dom().contains(d) {
                            let k = choose|k: int| is_entry(after, d, k);
                            assert(is_entry(before, d, k));
                        }
                        assert(is_entry(after, device, i as int));
                    }
                    assert forall|d: Device| self@.dom().contains(d) implies self@[d]
                        == known.insert(device, backend)[d] by {
                        let k = choose|k: int| is_entry(after, d, k);
                        assert(self@[d] == after[k].1);
                        if d != device {
                            assert(is_entry(before, d, k));
                            let h = choose|h: int| is_entry(before, d, h);
                            assert(h == k) by {
                                if h < k {
                                    assert(before[h].0 != before[k].0);
                                } else if k < h {
                                    assert(before[k].0 != before[h].0);
                                }
                            }
                        } else {
                            assert(k == i) by {
                                if k < i {
                                    assert(after[k].0 != after[i as int].0);
                                } else if i < k {
                                    assert(after[i as int].0 != after[k].0);
                                }
                            }
                        }
                    }
                    assert(self@ =~= known.insert(device, backend));
                }
            },
            None => {
                self.entries.push((device, backend));
                proof {
                    let after = self.entries@;
                    let last = before.len() as int;
                    assert(after =~= before.push((device, backend)));
                    assert forall|j: int| 0 <= j < last implies (#[trigger] before[j]).0
                        != device by {
                        assert(!is_entry(before, device, j));
                    }
                    assert(self.well_formed());
                    assert forall|d: Device| #[trigger] self@.dom().contains(d) <==> known.insert(
                        device,
                        backend,
                    ).dom().contains(d) by {
                        if known.dom().contains(d) {
                            let k = choose|k: int| is_entry(before, d, k);
                            assert(is_entry(after, d, k));
                        }
                        if self@.dom().contains(d) && d != device {
                            let k = choose|k: int| is_entry(after, d, k);
                            assert(is_entry(before, d, k));
                        }
                        assert(is_entry(after, device, last));
                    }
                    assert forall|d: Device| self@.dom().contains(d) implies self@[d]
                        == known.insert(device, backend)[d] by {
                        let k = choose|k: int| is_entry(after, d, k);
                        assert(self@[d] == after[k].1);
                        if d != device {
                            assert(is_entry(before, d, k));
                            let h = choose|h: int| is_entry(before, d, h);
                            assert(h == k) by {
                                if h < k {
                                    assert(before[h].0 != before[k].0);
                                } else if k < h {
                                    assert(before[k].0 != before[h].0);
                                }
                            }
                        }
                    }
                    assert(self@ =~= known.insert(device, backend));
                }
            },
        }
    }

    /// The backend of a device, if it has one.
    pub fn get_backend(&self, device: &Device) -> (backend: Option<&B>)
        requires
            self.well_formed(),
        ensures
            backend == (if self@.dom().contains(*device) {
                Some(&self@[*device])
            } else {
                None
            }),
    {
        match self.find(device) {
            Some(i) => Some(&self.entries[i].1),
            None => None,
        }
    }

    /// What the backend of a device makes of two operands; without a backend, what the host
    /// makes of them.
    pub fn dispatch_binary<T, F, G>(
        &self,
        a: &[T],
        b: &[T],
        device: &Device,
        cpu_fn: &F,
        backend_fn: &G,
    ) -> (out: Vec<T>) where F: Fn(&[T], &[T]) -> Vec<T>, G: Fn(&B, &[T], &[T]) -> Vec<T>
        requires
            self.well_formed(),
            cpu_fn.requires((a, b)),
            forall|backend: &B| #[trigger] backend_fn.requires((backend, a, b)),
        ensures
            if self@.dom().contains(*device) {
                backend_fn.ensures((&self@[*device], a, b), out)
            } else {
                cpu_fn.ensures((a, b), out)
            },
    {
        match self.get_backend(device) {
            Some(backend) => backend_fn(backend, a, b),
            None => cpu_fn(a, b),
        }
    }

    /// What the backend of a device makes of an operand; without a backend, what the host makes
    /// of it.
    pub fn dispatch_unary<T, F, G>(
        &self,
        a: &[T],
        device: &Device,
        cpu_fn: &F,
        backend_fn: &G,
    ) -> (out: Vec<T>) where F: Fn(&[T]) -> Vec<T>, G: Fn(&B, &[T]) -> Vec<T>
        requires
            self.well_formed(),
            cpu_fn.requires((a,)),
            forall|backend: &B| #[trigger] backend_fn.requires((backend, a)),
        ensures
            if self@.dom().contains(*device) {
                backend_fn.ensures((&self@[*device], a), out)
            } else {
                cpu_fn.ensures((a,), out)
            },
    {
        match self.get_backend(device) {
            Some(backend) => backend_fn(backend, a),
            None => cpu_fn(a),
        }
    }
}

} // verus!
