//! Two sets of parameters: one serves, the other is trained.

use vstd::prelude::*;
use vstd::slice::slice_to_vec;

verus! {

/// The values of a list of parameters.
pub open spec fn contents<T>(params: Seq<Vec<T>>) -> Seq<Seq<T>> {
    params.map_values(|p: Vec<T>| p@)
}

/// Copies a list of parameters.
fn copy_params<T: Copy>(params: &Vec<Vec<T>>) -> (copy: Vec<Vec<T>>)
    ensures
        contents(copy@) == contents(params@),
{
    let mut copy: Vec<Vec<T>> = Vec::new();
    let mut i: usize = 0;
    while i < params.len()
        invariant
            i <= params@.len(),
            contents(copy@) == contents(params@).take(i as int),
        decreases params@.len() - i,
    {
        let ghost before = contents(copy@);
        let one: Vec<T> = slice_to_vec(params[i].as_slice());
        assert(one@ =~= params@[i as int]@);
        copy.push(one);
        assert(contents(copy@) =~= before.push(one@));
        i = i + 1;
        assert(contents(copy@) =~= contents(params@).take(i as int));
    }
    assert(contents(copy@) =~= contents(params@));
    copy
}

/// Two sets of parameters of the same shapes. Changing their roles copies nothing.
#[derive(Debug)]
pub struct DoubleBufferParams<T> {
    buf_a: Vec<Vec<T>>,
    buf_b: Vec<Vec<T>>,
    a_is_active: bool,
}

impl<T> DoubleBufferParams<T> {
    /// What serves.
    pub closed spec fn active(&self) -> Seq<Seq<T>> {
        if self.a_is_active {
            contents(self.buf_a@)
        } else {
            contents(self.buf_b@)
        }
    }

    /// What is trained.
    pub closed spec fn shadow(&self) -> Seq<Seq<T>> {
        if self.a_is_active {
            contents(self.buf_b@)
        } else {
            contents(self.buf_a@)
        }
    }

    /// Both sets have the same parameters, each of the same length.
    pub open spec fn well_formed(&self) -> bool {
        &&& self.active().len() == self.shadow().len()
        &&& forall|i: int|
            0 <= i < self.active().len() ==> (#[trigger] self.active()[i]).len()
                == self.shadow()[i].len()
    }

    /// What serves.
    pub fn active_params(&self) -> (params: &Vec<Vec<T>>)
        ensures
            contents(params@) == self.active(),
    {
        if self.a_is_active {
            &self.buf_a
        } else {
            &self.buf_b
        }
    }

    /// What is trained.
    pub fn shadow_params(&self) -> (params: &Vec<Vec<T>>)
        ensures
            contents(params@) == self.shadow(),
    {
        if self.a_is_active {
            &self.buf_b
        } else {
            &self.buf_a
        }
    }

    /// Exchanges the roles.
    pub fn swap(&mut self)
        requires
            old(self).well_formed(),
        ensures
            final(self).well_formed(),
            final(self).active() == old(self).shadow(),
            final(self).shadow() == old(self).active(),
    {
        self.a_is_active = !self.a_is_active;
        assert(forall|i: int|
            0 <= i < old(self).active().len() ==> (#[trigger] old(self).shadow()[i]).len()
                == old(self).active()[i].len());
    }

    /// The number of parameters.
    pub fn num_params(&self) -> (n: usize)
        requires
            self.well_formed(),
        ensures
            n == self.active().len(),
            n == self.shadow().len(),
    {
        self.buf_a.len()
    }

    /// Writes one trained parameter. What serves does not change.
    pub fn write_shadow(&mut self, index: usize, values: Vec<T>)
        requires
            old(self).well_formed(),
            index < old(self).shadow().len(),
            values@.len() == old(self).shadow()[index as int].len(),
        ensures
            final(self).well_formed(),
            final(self).active() == old(self).active(),
            final(self).shadow() == old(self).shadow().update(index as int, values@),
    {
        if self.a_is_active {
            self.buf_b[index] = values;
            assert(contents(self.buf_b@) =~= old(self).shadow().update(index as int, values@));
        } else {
            self.buf_a[index] = values;
            assert(contents(self.buf_a@) =~= old(self).shadow().update(index as int, values@));
        }
    }
}

impl<T: Copy> DoubleBufferParams<T> {
    /// Two copies of the parameters.
    pub fn new(params: &Vec<Vec<T>>) -> (buffers: Self)
        ensures
            buffers.well_formed(),
            buffers.active() == contents(params@),
            buffers.shadow() == contents(params@),
    {
        DoubleBufferParams {
            buf_a: copy_params(params),
            buf_b: copy_params(params),
            a_is_active: true,
        }
    }

    /// A copy of what serves.
    pub fn active_params_snapshot(&self) -> (copy: Vec<Vec<T>>)
        ensures
            contents(copy@) == self.active(),
    {
        copy_params(self.active_params())
    }

    /// Gives up what was trained: both sets are then what serves.
    pub fn sync_shadow_from_active(&mut self)
        requires
            old(self).well_formed(),
        ensures
            final(self).well_formed(),
            final(self).active() == old(self).active(),
            final(self).shadow() == old(self).active(),
    {
        if self.a_is_active {
            self.buf_b = copy_params(&self.buf_a);
        } else {
            self.buf_a = copy_params(&self.buf_b);
        }
    }
}

} // verus!
