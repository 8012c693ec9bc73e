//! The sample history that an FFT analyzer keeps: a ring buffer of the last
//! `FFT_BUFFER_SIZE` samples that hands them out oldest first.
use vstd::prelude::*;

verus! {

/// Number of samples that the analyzer transforms at once.
pub const FFT_BUFFER_SIZE: usize = 1024;

/// The last `len` items of `s`.
pub open spec fn last_n<T>(s: Seq<T>, len: nat) -> Seq<T> {
    s.subrange(s.len() - len, s.len() as int)
}

/// The last `FFT_BUFFER_SIZE` samples seen, in a ring buffer.
pub struct FftWindow<T> {
    fft_buffer: [T; 1024],
    fft_cursor: usize,
}

impl<T> View for FftWindow<T> {
    type V = Seq<T>;

    /// The samples of the window, oldest first.
    closed spec fn view(&self) -> Seq<T> {
        self.fft_buffer@.subrange(self.fft_cursor as int, FFT_BUFFER_SIZE as int) + self.fft_buffer@.subrange(
            0,
            self.fft_cursor as int,
        )
    }
}

impl<T> FftWindow<T> {
    #[verifier::type_invariant]
    spec fn inv(self) -> bool {
        self.fft_cursor < FFT_BUFFER_SIZE
    }
}

impl<T: Copy> FftWindow<T> {
    /// A window of `FFT_BUFFER_SIZE` copies of `silence`.
    pub fn new(silence: T) -> (r: FftWindow<T>)
        ensures
            r@ == Seq::new(FFT_BUFFER_SIZE as nat, |i: int| silence),
    {
        let fft_buffer: [T; 1024] = [silence; 1024];
        let r = FftWindow { fft_buffer, fft_cursor: 0 };
        proof {
            assert(fft_buffer@.len() == FFT_BUFFER_SIZE);
            assert forall|i: int| 0 <= i < FFT_BUFFER_SIZE implies fft_buffer@[i] == silence by {}
            assert(r@ =~= Seq::new(FFT_BUFFER_SIZE as nat, |i: int| silence));
        }
        r
    }

    /// Records `sample` as the newest sample, dropping the oldest.
    pub fn push(&mut self, sample: T)
        ensures
            final(self)@ == old(self)@.drop_first().push(sample),
            final(self)@.len() == FFT_BUFFER_SIZE,
    {
        proof {
            use_type_invariant(&*self);
        }
        let ghost b = self.fft_buffer@;
        let ghost c = self.fft_cursor as int;
        let cursor = self.fft_cursor;
        let mut buffer = self.fft_buffer;
        buffer[cursor] = sample;
        *self = FftWindow { fft_buffer: buffer, fft_cursor: (cursor + 1) % FFT_BUFFER_SIZE };
        proof {
            let n = FFT_BUFFER_SIZE as int;
            let b2 = self.fft_buffer@;
            assert(b2 == b.update(c, sample));
            let old_view = b.subrange(c, n) + b.subrange(0, c);
            assert(old_view.drop_first() =~= b.subrange(c + 1, n) + b.subrange(0, c));
            if c + 1 < n {
                assert(self.fft_cursor == c + 1);
                assert(b2.subrange(c + 1, n) =~= b.subrange(c + 1, n));
                assert(b2.subrange(0, c + 1) =~= b.subrange(0, c).push(sample));
            } else {
                assert(self.fft_cursor == 0);
                assert(b2.subrange(0, n) =~= b.subrange(0, c).push(sample));
            }
            assert(self@ =~= old_view.drop_first().push(sample));
        }
    }

    /// The samples of the window, oldest first.
    pub fn ordered(&self) -> (r: [T; 1024])
        ensures
            r@ == self@,
    {
        proof {
            use_type_invariant(self);
        }
        let n = FFT_BUFFER_SIZE;
        let cursor = self.fft_cursor;
        let ghost b = self.fft_buffer@;
        let mut ordered = self.fft_buffer;
        // First the part from the cursor on: the oldest samples
        let mut k: usize = cursor;
        while k < n
            invariant
                cursor <= k <= n,
                n == FFT_BUFFER_SIZE,
                b == self.fft_buffer@,
                b.len() == n,
                ordered@.len() == n,
                forall|i: int| 0 <= i < k - cursor ==> ordered@[i] == b[cursor + i],
            decreases n - k,
        {
            ordered[k - cursor] = self.fft_buffer[k];
            k = k + 1;
        }
        // Then the part before the cursor: the newest samples
        let mut k: usize = 0;
        while k < cursor
            invariant
                k <= cursor < n,
                n == FFT_BUFFER_SIZE,
                b == self.fft_buffer@,
                b.len() == n,
                ordered@.len() == n,
                forall|i: int| 0 <= i < n - cursor ==> ordered@[i] == b[cursor + i],
                forall|i: int| 0 <= i < k ==> ordered@[n - cursor + i] == b[i],
            decreases cursor - k,
        {
            ordered[n - cursor + k] = self.fft_buffer[k];
            k = k + 1;
        }
        proof {
            assert(ordered@ =~= self@);
        }
        ordered
    }
}

/// The window after `samples` have been pushed, in order, onto a window holding `window`.
pub open spec fn after_pushes<T>(window: Seq<T>, samples: Seq<T>) -> Seq<T>
    decreases samples.len(),
{
    if samples.len() == 0 {
        window
    } else {
        after_pushes(window, samples.drop_last()).drop_first().push(samples.last())
    }
}

/// Pushing samples keeps the newest `FFT_BUFFER_SIZE` of all the samples seen, oldest
/// first: those that the window held, then those that were pushed.
pub proof fn lemma_window_keeps_newest<T>(window: Seq<T>, samples: Seq<T>)
    requires
        window.len() == FFT_BUFFER_SIZE,
    ensures
        after_pushes(window, samples) == last_n(window + samples, FFT_BUFFER_SIZE as nat),
    decreases samples.len(),
{
    if samples.len() > 0 {
        let rest = samples.drop_last();
        lemma_window_keeps_newest(window, rest);
        assert(window + samples =~= (window + rest).push(samples.last()));
        assert(last_n(window + rest, FFT_BUFFER_SIZE as nat).drop_first().push(samples.last()) =~= last_n(
            window + samples,
            FFT_BUFFER_SIZE as nat,
        ));
    } else {
        assert(window + samples =~= window);
        assert(last_n(window, FFT_BUFFER_SIZE as nat) =~= window);
    }
}

} // verus!
