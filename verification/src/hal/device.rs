//! Logical devices.

use crate::text;
use crate::text::{push_decimal, push_text};
use vstd::prelude::*;

verus! {

/// A device of a backend family, such as `cpu`, `cuda` or `tank9k`.
#[derive(Debug, PartialEq, Eq, Hash)]
pub struct DeviceId {
    pub backend: String,
    pub ordinal: usize,
}

/// Which device a [`DeviceId`] names.
#[verifier::ext_equal]
pub struct DeviceKey {
    pub backend: Seq<char>,
    pub ordinal: usize,
}

impl View for DeviceId {
    type V = DeviceKey;

    open spec fn view(&self) -> DeviceKey {
        DeviceKey { backend: self.backend@, ordinal: self.ordinal }
    }
}

impl Clone for DeviceId {
    fn clone(&self) -> (copy: Self)
        ensures
            copy == *self,
    {
        DeviceId { backend: self.backend.clone(), ordinal: self.ordinal }
    }
}

/// A device as text: family, colon, number.
pub open spec fn device_text(key: DeviceKey) -> Seq<char> {
    key.backend + ":"@ + text::decimal(key.ordinal as nat)
}

impl DeviceId {
    /// The one CPU device.
    pub fn cpu() -> (id: Self)
        ensures
            id@ == (DeviceKey { backend: "cpu"@, ordinal: 0 }),
    {
        DeviceId { backend: "cpu".to_owned(), ordinal: 0 }
    }

    /// A CUDA device.
    pub fn cuda(ordinal: usize) -> (id: Self)
        ensures
            id@ == (DeviceKey { backend: "cuda"@, ordinal }),
    {
        DeviceId { backend: "cuda".to_owned(), ordinal }
    }

    /// A Tank9k board.
    pub fn tank9k(ordinal: usize) -> (id: Self)
        ensures
            id@ == (DeviceKey { backend: "tank9k"@, ordinal }),
    {
        DeviceId { backend: "tank9k".to_owned(), ordinal }
    }

    /// Whether both name the same device.
    pub fn same(&self, other: &DeviceId) -> (yes: bool)
        ensures
            yes == (self@ == other@),
    {
        self.ordinal == other.ordinal && self.backend == other.backend
    }

    /// The device as text.
    pub fn label(&self) -> (shown: String)
        ensures
            shown@ == device_text(self@),
    {
        let mut shown = self.backend.clone();
        push_text(&mut shown, ":");
        push_decimal(&mut shown, self.ordinal as u64);
        shown
    }
}

/// Whether `a` comes strictly before `b` in the lexicographic order of code points, which is
/// also that of their UTF-8 bytes.
pub open spec fn text_before(a: Seq<char>, b: Seq<char>) -> bool
    decreases a.len(),
{
    if b.len() == 0 {
        false
    } else if a.len() == 0 {
        true
    } else if a[0] != b[0] {
        (a[0] as int) < (b[0] as int)
    } else {
        text_before(a.skip(1), b.skip(1))
    }
}

/// Whether `a` comes strictly before `b`: first by family, then by number.
pub open spec fn device_before(a: DeviceKey, b: DeviceKey) -> bool {
    text_before(a.backend, b.backend) || (a.backend == b.backend && a.ordinal < b.ordinal)
}

/// Of two texts exactly one comes first, unless they are the same.
proof fn lemma_text_before_total(a: Seq<char>, b: Seq<char>)
    ensures
        a == b ==> !text_before(a, b),
        a != b ==> text_before(a, b) != text_before(b, a),
    decreases a.len(),
{
    if a.len() > 0 && b.len() > 0 && a[0] == b[0] {
        lemma_text_before_total(a.skip(1), b.skip(1));
        if a.skip(1) == b.skip(1) {
            assert(a =~= seq![a[0]] + a.skip(1));
            assert(b =~= seq![b[0]] + b.skip(1));
        }
    } else if a.len() == 0 && b.len() == 0 {
        assert(a =~= b);
    }
}

proof fn lemma_text_before_transitive(a: Seq<char>, b: Seq<char>, c: Seq<char>)
    requires
        text_before(a, b),
        text_before(b, c),
    ensures
        text_before(a, c),
    decreases a.len(),
{
    if a.len() > 0 && a[0] == b[0] && b[0] == c[0] {
        lemma_text_before_transitive(a.skip(1), b.skip(1), c.skip(1));
    }
}

/// The order of devices is total: of two devices exactly one comes first, unless they are
/// the same.
pub proof fn law_device_order_is_total(a: DeviceKey, b: DeviceKey)
    ensures
        a == b ==> !device_before(a, b),
        a != b ==> device_before(a, b) != device_before(b, a),
{
    lemma_text_before_total(a.backend, b.backend);
    lemma_text_before_total(b.backend, a.backend);
}

/// The order of devices is transitive.
pub proof fn law_device_order_is_transitive(a: DeviceKey, b: DeviceKey, c: DeviceKey)
    requires
        device_before(a, b),
        device_before(b, c),
    ensures
        device_before(a, c),
{
    if text_before(a.backend, b.backend) && text_before(b.backend, c.backend) {
        lemma_text_before_transitive(a.backend, b.backend, c.backend);
    }
}

/// Whether `a` comes strictly before `b` in the order of code points.
pub fn is_text_before(a: &str, b: &str) -> (yes: bool)
    ensures
        yes == text_before(a@, b@),
{
    let a_len: usize = a.unicode_len();
    let b_len: usize = b.unicode_len();
    let mut i: usize = 0;
    assert(a@.skip(0) =~= a@);
    assert(b@.skip(0) =~= b@);
    while i < a_len && i < b_len
        invariant
            i <= a_len == a@.len(),
            i <= b_len == b@.len(),
            text_before(a@, b@) == text_before(a@.skip(i as int), b@.skip(i as int)),
        decreases a_len - i,
    {
        let x: char = a.get_char(i);
        let y: char = b.get_char(i);
        assert(a@.skip(i as int).skip(1) =~= a@.skip(i + 1));
        assert(b@.skip(i as int).skip(1) =~= b@.skip(i + 1));
        if x != y {
            return (x as u32) < (y as u32);
        }
        i = i + 1;
    }
    i < b_len
}

impl DeviceId {
    /// Whether this device comes strictly before `other`.
    pub fn is_before(&self, other: &DeviceId) -> (yes: bool)
        ensures
            yes == device_before(self@, other@),
    {
        if self.backend == other.backend {
            proof {
                lemma_text_before_total(self.backend@, other.backend@);
            }
            self.ordinal < other.ordinal
        } else {
            is_text_before(self.backend.as_str(), other.backend.as_str())
        }
    }
}

} // verus!
