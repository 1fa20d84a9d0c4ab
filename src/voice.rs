//! Round-robin assignment of voices.

use vstd::prelude::*;

verus! {

/// Hands out the voices `0..n` in turn, starting again after the last.
pub struct VoiceAllocator {
    voices: Vec<usize>,
    next_voice: usize,
}

impl VoiceAllocator {
    /// The number of voices.
    pub closed spec fn count(&self) -> nat {
        self.voices@.len()
    }

    /// The voice that the next request gets.
    pub closed spec fn next(&self) -> nat {
        self.next_voice as nat
    }

    pub closed spec fn wf(&self) -> bool {
        &&& self.voices@.len() > 0
        &&& self.next_voice < self.voices@.len()
        &&& forall|i: int| 0 <= i < self.voices@.len() ==> #[trigger] self.voices@[i] == i
    }

    /// An allocator over `n_voices` voices; the first request gets voice 0.
    pub fn new(n_voices: usize) -> (r: VoiceAllocator)
        requires
            n_voices > 0,
        ensures
            r.wf(),
            r.count() == n_voices,
            r.next() == 0,
    {
        let mut voices: Vec<usize> = Vec::new();
        let mut i: usize = 0;
        while i < n_voices
            invariant
                i <= n_voices,
                voices@.len() == i,
                forall|j: int| 0 <= j < i ==> #[trigger] voices@[j] == j,
            decreases n_voices - i,
        {
            voices.push(i);
            i = i + 1;
        }
        VoiceAllocator { voices, next_voice: 0 }
    }

    /// The next voice in turn.
    pub fn get_voice(&mut self) -> (r: usize)
        requires
            old(self).wf(),
        ensures
            final(self).wf(),
            r == old(self).next(),
            final(self).count() == old(self).count(),
            final(self).next() == (old(self).next() + 1) % old(self).count(),
    {
        let ret = self.next_voice;
        let n = self.voices.len();
        self.next_voice = (self.next_voice + 1) % n;
        ret
    }
}

} // verus!
