use vstd::prelude::*;
use crate::primitives::MessageFingerprint;

verus! {

/// A set of message fingerprints.
#[derive(Debug)]
pub struct Knowledge {
    pub known_messages: Vec<MessageFingerprint>,
}

impl Knowledge {
    pub open spec fn knows(&self, f: MessageFingerprint) -> bool {
        self.known_messages@.contains(f)
    }

    /// Every fingerprint known here is known to `other`.
    pub open spec fn within(&self, other: &Knowledge) -> bool {
        forall|f: MessageFingerprint| #[trigger] self.knows(f) ==> other.knows(f)
    }

    pub fn new() -> (r: Knowledge)
        ensures
            forall|f: MessageFingerprint| !r.knows(f),
    {
        Knowledge { known_messages: Vec::new() }
    }

    pub fn contains(&self, f: &MessageFingerprint) -> (r: bool)
        ensures
            r == self.knows(*f),
    {
        let mut i: usize = 0;
        while i < self.known_messages.len()
            invariant
                i <= self.known_messages.len(),
                forall|j: int| 0 <= j < i ==> self.known_messages@[j] != *f,
            decreases self.known_messages.len() - i,
        {
            if self.known_messages[i] == *f {
                return true;
            }
            i += 1;
        }
        false
    }

    pub fn insert(&mut self, f: MessageFingerprint)
        ensures
            forall|g: MessageFingerprint| #[trigger] final(self).knows(g) == (old(self).knows(g) || g == f),
    {
        if !self.contains(&f) {
            let ghost before = self.known_messages@;
            self.known_messages.push(f);
            assert forall|g: MessageFingerprint| #[trigger] self.known_messages@.contains(g) == (
            before.contains(g) || g == f) by {
                if before.contains(g) {
                    let j = choose|j: int| 0 <= j < before.len() && before[j] == g;
                    assert(self.known_messages@[j] == g);
                }
                if g == f {
                    assert(self.known_messages@[before.len() as int] == f);
                }
            }
        }
    }

    /// A copy of this knowledge, fingerprint for fingerprint.
    pub fn snapshot(&self) -> (r: Knowledge)
        ensures
            r.known_messages@ == self.known_messages@,
    {
        let mut v: Vec<MessageFingerprint> = Vec::new();
        let mut i: usize = 0;
        while i < self.known_messages.len()
            invariant
                i <= self.known_messages.len(),
                v@ == self.known_messages@.subrange(0, i as int),
            decreases self.known_messages.len() - i,
        {
            v.push(self.known_messages[i]);
            i += 1;
            assert(v@ =~= self.known_messages@.subrange(0, i as int));
        }
        assert(v@ =~= self.known_messages@);
        Knowledge { known_messages: v }
    }
}

} // verus!
