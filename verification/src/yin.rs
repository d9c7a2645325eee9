//! The index arithmetic of the YIN pitch tracker: how long the transforms
//! are, and which stretch of the signal and of the autocorrelation each
//! analysis reads.
use vstd::prelude::*;
use crate::util::{
    ThreeSmooth, is_smooth, smooth_value, merge_state, merge_step_fits, first_occurrence,
    merge_slack, lemma_merge_state_inv, lemma_merge_state_index, lemma_smooth_value_is_smooth,
    lemma_smooth_none_skipped, lemma_merge_progress,
};

verus! {

/// The length of the (unpadded) transform for a window of `window_len`
/// samples and lags below `lag_sup`: room for a window and all its lags,
/// with no wrap-around of the circular correlation.
pub open spec fn fft_len_of(window_len: int, lag_sup: int) -> int {
    2 * window_len + lag_sup - 1
}

/// `r` is the smallest 3-smooth number that is at least `n`.
pub open spec fn is_least_smooth_at_least(r: int, n: int) -> bool {
    &&& is_smooth(r)
    &&& r >= n
    &&& forall|m: int| #[trigger] is_smooth(m) && m >= n ==> r <= m
}

/// Between `t` and `2 * t` there is a 3-smooth number.
pub proof fn lemma_smooth_below_double(t: int)
    requires
        t >= 1,
    ensures
        exists|p: int| is_smooth(p) && t <= p < 2 * t,
    decreases t,
{
    if t == 1 {
        assert(is_smooth(1));
    } else if t % 2 == 0 {
        lemma_smooth_below_double(t / 2);
        let q = choose|q: int| is_smooth(q) && t / 2 <= q < 2 * (t / 2);
        assert((2 * q) % 2 == 0 && (2 * q) / 2 == q);
        assert(is_smooth(2 * q));
    } else {
        let h = (t + 1) / 2;
        lemma_smooth_below_double(h);
        let q = choose|q: int| is_smooth(q) && h <= q < 2 * h;
        if q == t {
            assert(is_smooth(t));
        } else {
            assert((2 * q) % 2 == 0 && (2 * q) / 2 == q);
            assert(is_smooth(2 * q));
        }
    }
}

/// The first value of [`ThreeSmooth`] that is at least `target`.
fn pad_to_three_smooth(target: usize) -> (r: usize)
    requires
        target <= usize::MAX / 6,
    ensures
        is_least_smooth_at_least(r as int, target as int),
{
    let mut it = ThreeSmooth::new();
    let ghost mut pos: nat = 0;
    proof {
        lemma_merge_state_inv(0);
        lemma_merge_state_index(0, 0);
    }
    loop
        invariant
            it.wf(),
            target <= usize::MAX / 6,
            first_occurrence(it.count(), pos),
            forall|j: nat| j < it.count() ==> #[trigger] smooth_value(j) < target,
        decreases
            (if smooth_value(it.count()) < target { target - smooth_value(it.count()) } else { 0 }),
            merge_slack(it.count(), pos),
    {
        let ghost k = it.count();
        proof {
            lemma_merge_state_inv(k);
            let st = merge_state(k);
            let s = st.values;
            lemma_merge_state_index(k, k);
            // the value about to be produced is below `2 * target`
            if smooth_value(k) >= target && target >= 1 {
                lemma_smooth_below_double(target as int);
                let p = choose|p: int| is_smooth(p) && target <= p < 2 * target;
                if smooth_value(k) > p {
                    lemma_smooth_none_skipped(k, p);
                    let j = choose|j: nat| j <= k && smooth_value(j) == p;
                    assert(j < k);
                }
            }
            if k > 0 && target == 0 {
                assert(smooth_value(0) < target);
            }
            assert(s[0] <= s[st.i2]);
            assert(s[st.i2] <= s[k as int]);
            assert(s[st.i3] <= s[k as int]);
            assert(merge_step_fits(k));
            lemma_merge_progress(k, pos);
        }
        let v = it.next().unwrap();
        if v >= target {
            proof {
                lemma_smooth_value_is_smooth(k);
                assert forall|m: int| #[trigger] is_smooth(m) && m >= target implies v <= m by {
                    if m < v {
                        lemma_smooth_none_skipped(k, m);
                        let j = choose|j: nat| j <= k && smooth_value(j) == m;
                        assert(j < k);
                    }
                }
            }
            return v;
        }
        proof {
            if smooth_value((k + 1) as nat) > smooth_value(k) {
                pos = (k + 1) as nat;
            }
        }
    }
}

/// The lengths that an analysis with a window of `window_len` samples and
/// lags below `lag_sup` works with.
pub struct YinParams {
    window_len: usize,
    lag_sup: usize,
    fft_len_padded: usize,
}

/// The stretch of a signal that one analysis reads, and where its
/// autocorrelation lands in the transform buffer.
#[derive(Clone, Copy, Debug, PartialEq, Eq, Structural)]
pub struct LagSpan {
    /// The largest lag computed.
    pub max_lag: usize,
    /// How many of the newest samples are read.
    pub sig_len: usize,
    /// Where those samples start in the signal.
    pub sig_start: usize,
    /// Where the autocorrelation starts in the buffer of `fft_len_padded()`
    /// values: the `max_lag` values from here on are the lags `0` to
    /// `max_lag - 1`, in order (lag `max_lag` wraps round to index 0).
    pub out_start: usize,
}

impl YinParams {
    pub closed spec fn window(self) -> int {
        self.window_len as int
    }

    pub closed spec fn lag_limit(self) -> int {
        self.lag_sup as int
    }

    pub closed spec fn padded(self) -> int {
        self.fft_len_padded as int
    }

    /// The lag bound is positive, the transform length fits the bound that
    /// `new` asks for, and the padded length is the smallest 3-smooth number
    /// at least as long.
    pub open spec fn wf(self) -> bool {
        &&& self.lag_limit() >= 1
        &&& fft_len_of(self.window(), self.lag_limit()) <= usize::MAX / 6
        &&& is_least_smooth_at_least(self.padded(), fft_len_of(self.window(), self.lag_limit()))
    }

    fn length_fft(window_len: usize, lag_sup: usize) -> (r: usize)
        requires
            lag_sup >= 1,
            fft_len_of(window_len as int, lag_sup as int) <= usize::MAX,
        ensures
            r == fft_len_of(window_len as int, lag_sup as int),
    {
        window_len * 2 + (lag_sup - 1)
    }

    /// The lengths for a window of `window_len` samples and lags below
    /// `lag_sup`; the transform is padded to the next 3-smooth length.
    ///
    /// The transform length may be at most `usize::MAX / 6`, which keeps the
    /// search for the padded length within `usize`. That bound turns no
    /// usable length away: the transform needs a buffer of that many `f32`s,
    /// and from about `usize::MAX / 8` on such a buffer exceeds `isize::MAX`
    /// bytes and cannot be allocated.
    pub fn new(window_len: usize, lag_sup: usize) -> (r: Self)
        requires
            lag_sup >= 1,
            fft_len_of(window_len as int, lag_sup as int) <= usize::MAX / 6,
        ensures
            r.wf(),
            r.window() == window_len,
            r.lag_limit() == lag_sup,
    {
        let fft_len = Self::length_fft(window_len, lag_sup);
        let fft_len_padded = pad_to_three_smooth(fft_len);
        YinParams { window_len, lag_sup, fft_len_padded }
    }

    /// The unpadded transform length.
    pub fn fft_len(&self) -> (r: usize)
        requires
            self.wf(),
        ensures
            r == fft_len_of(self.window(), self.lag_limit()),
    {
        self.window_len * 2 + (self.lag_sup - 1)
    }

    /// The transform length actually used.
    pub fn fft_len_padded(&self) -> (r: usize)
        ensures
            r == self.padded(),
    {
        self.fft_len_padded
    }

    /// The window length and the lag bound.
    pub fn get_params(&self) -> (r: (usize, usize))
        ensures
            r.0 == self.window(),
            r.1 == self.lag_limit(),
    {
        (self.window_len, self.lag_sup)
    }

    /// How many of the oldest samples of a signal of `signal_len` samples an
    /// analysis does not need, or `None` where the signal is shorter than a
    /// window.
    pub fn unused_lags(&self, signal_len: usize) -> (r: Option<usize>)
        requires
            self.wf(),
        ensures
            r is None <==> signal_len < self.window(),
            r matches Some(u) ==> u == vstd::math::max(
                signal_len - self.window() - (self.lag_limit() - 1),
                0,
            ),
    {
        match signal_len.checked_sub(self.window_len) {
            Some(in_lags) => Some(in_lags.saturating_sub(self.lag_sup - 1)),
            None => None,
        }
    }

    /// What an analysis of a signal of `signal_len` samples reads and where
    /// its result lands, or `None` where the signal is shorter than a window.
    pub fn lag_span(&self, signal_len: usize) -> (r: Option<LagSpan>)
        requires
            self.wf(),
        ensures
            r is None <==> signal_len < self.window(),
            r matches Some(span) ==> {
                &&& span.max_lag == vstd::math::min(signal_len - self.window(), self.lag_limit() - 1)
                &&& span.sig_len == self.window() + span.max_lag
                &&& span.sig_start == signal_len - span.sig_len
                &&& span.out_start == self.padded() - span.max_lag
                &&& span.sig_len <= self.padded()
            },
    {
        let w = self.window_len;
        let in_max_lag = match signal_len.checked_sub(w) {
            Some(n) => n,
            None => {
                return None;
            },
        };
        let lag_bound = self.lag_sup - 1;
        let max_lag = if in_max_lag < lag_bound { in_max_lag } else { lag_bound };
        let sig_len = w + max_lag;
        Some(LagSpan {
            max_lag,
            sig_len,
            sig_start: signal_len - sig_len,
            out_start: self.fft_len_padded - max_lag,
        })
    }
}

/// The samples that an analysis leaves unused are exactly those before the
/// stretch that it reads: for a signal of `n` samples, what `unused_lags`
/// gives is `lag_span`'s `sig_start`.
pub proof fn lemma_unused_lags_precede_span(p: YinParams, n: int)
    requires
        p.wf(),
        n >= p.window(),
    ensures
        vstd::math::max(n - p.window() - (p.lag_limit() - 1), 0) == n - (p.window()
            + vstd::math::min(n - p.window(), p.lag_limit() - 1)),
{
}

} // verus!
