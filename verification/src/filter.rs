use vstd::prelude::*;

verus! {

/// Number of stereo samples held in each circular buffer.
pub const AUDIO_BUF_LENGTH: usize = 256;

/// Coefficients of a 33-tap low-pass design; the filter applied by
/// `fir_filter` weighs every tap equally instead.
pub const MULTIPLIER: [i64; 33] = [
    -399, -46, 407, 486, 46, -525, -626, -46, 731, 885, 46, -1185, -1532, -46, 2997, 6062, 7349,
    6062, 2997, -46, -1532, -1185, 46, 885, 731, -46, -626, -525, 46, 486, 407, -46, -399,
];

/// Number of samples (the current one included) that enter each filtered value.
pub const FILTER_TAPS: usize = 33;

/// Raw and filtered stereo samples, each entry is `(right, left)`.
pub struct AudioBuffer {
    /// Buffer with the filtered signals.
    pub data_filter: [(i32, i32); AUDIO_BUF_LENGTH],
    /// Buffer with the raw signals.
    pub data_raw: [(i32, i32); AUDIO_BUF_LENGTH],
}

/// Position in the circular buffer that lies `back` samples before `index`.
pub open spec fn ring_pos(index: int, back: int) -> int {
    (index + AUDIO_BUF_LENGTH - back) % (AUDIO_BUF_LENGTH as int)
}

/// Sum of the right channel over the `k` most recent raw samples up to `index`.
pub open spec fn right_window_sum(raw: Seq<(i32, i32)>, index: int, k: nat) -> int
    decreases k,
{
    if k == 0 {
        0
    } else {
        right_window_sum(raw, index, (k - 1) as nat) + raw[ring_pos(index, k - 1)].0
    }
}

/// Sum of the left channel over the `k` most recent raw samples up to `index`.
pub open spec fn left_window_sum(raw: Seq<(i32, i32)>, index: int, k: nat) -> int
    decreases k,
{
    if k == 0 {
        0
    } else {
        left_window_sum(raw, index, (k - 1) as nat) + raw[ring_pos(index, k - 1)].1
    }
}

/// Every running sum that the filter forms at `index` fits in an `i32`.
pub open spec fn window_sums_fit(raw: Seq<(i32, i32)>, index: int) -> bool {
    forall|k: nat|
        k <= FILTER_TAPS ==> {
            &&& i32::MIN <= #[trigger] right_window_sum(raw, index, k) <= i32::MAX
            &&& i32::MIN <= left_window_sum(raw, index, k) <= i32::MAX
        }
}

/// Magnitude from which a raw sample counts as sound rather than noise.
pub const THRESHOLD: i32 = 400;

/// Whether recording is active once the raw sample `(right, left)` has
/// arrived: it becomes active at the first sample that reaches the
/// threshold in either channel, and then stays active.
pub fn is_active(sample: (i32, i32), active: bool) -> (r: bool)
    ensures
        r == (active || sample.0 >= THRESHOLD || sample.0 <= -THRESHOLD || sample.1 >= THRESHOLD
            || sample.1 <= -THRESHOLD),
{
    let threshold: i32 = THRESHOLD;
    (sample.0 >= threshold || sample.0 <= ((-1) * threshold) || sample.1 >= threshold || sample.1
        <= ((-1) * threshold)) || active
}

/// A buffer whose raw and filtered samples are all zero.
pub fn init_audio_buffer() -> (b: AudioBuffer)
    ensures
        forall|i: int| 0 <= i < AUDIO_BUF_LENGTH ==> b.data_filter@[i] == (0i32, 0i32),
        forall|i: int| 0 <= i < AUDIO_BUF_LENGTH ==> b.data_raw@[i] == (0i32, 0i32),
{
    AudioBuffer { data_filter: [(0i32, 0i32); 256], data_raw: [(0i32, 0i32); 256] }
}

/// Filters the sample at `index`: its filtered value becomes, per channel, the
/// sum of the raw samples at `index` and the 32 positions before it (wrapping
/// around the start of the buffer). Nothing else changes.
pub fn fir_filter(audio_buf: &mut AudioBuffer, index: usize)
    requires
        index < AUDIO_BUF_LENGTH,
        window_sums_fit(old(audio_buf).data_raw@, index as int),
    ensures
        final(audio_buf).data_raw == old(audio_buf).data_raw,
        final(audio_buf).data_filter@ == old(audio_buf).data_filter@.update(
            index as int,
            (
                right_window_sum(old(audio_buf).data_raw@, index as int, FILTER_TAPS as nat) as i32,
                left_window_sum(old(audio_buf).data_raw@, index as int, FILTER_TAPS as nat) as i32,
            ),
        ),
{
    let n: usize = 33;
    let mut sum_right: i32 = 0;
    let mut sum_left: i32 = 0;
    let ghost raw = audio_buf.data_raw@;
    let mut j: usize = 0;
    while j < n
        invariant
            n == FILTER_TAPS,
            j <= n,
            index < AUDIO_BUF_LENGTH,
            raw == audio_buf.data_raw@,
            window_sums_fit(raw, index as int),
            sum_right == right_window_sum(raw, index as int, j as nat),
            sum_left == left_window_sum(raw, index as int, j as nat),
        decreases n - j,
    {
        let pos: usize = (index + AUDIO_BUF_LENGTH - j) % AUDIO_BUF_LENGTH;
        proof {
            assert(right_window_sum(raw, index as int, (j + 1) as nat) == sum_right + raw[pos as int].0);
            assert(i32::MIN <= right_window_sum(raw, index as int, (j + 1) as nat) <= i32::MAX);
            assert(i32::MIN <= left_window_sum(raw, index as int, (j + 1) as nat) <= i32::MAX);
        }
        sum_right = sum_right + audio_buf.data_raw[pos].0;
        sum_left = sum_left + audio_buf.data_raw[pos].1;
        j = j + 1;
    }
    audio_buf.data_filter[index] = (sum_right, sum_left);
}


/// Whether `fir_filter` can filter the sample at `index` without any of its
/// running sums leaving the `i32` range.
pub fn fir_filter_fits(audio_buf: &AudioBuffer, index: usize) -> (r: bool)
    requires
        index < AUDIO_BUF_LENGTH,
    ensures
        r == window_sums_fit(audio_buf.data_raw@, index as int),
{
    let ghost raw = audio_buf.data_raw@;
    let mut sum_right: i64 = 0;
    let mut sum_left: i64 = 0;
    let mut j: usize = 0;
    while j < FILTER_TAPS
        invariant
            j <= FILTER_TAPS,
            index < AUDIO_BUF_LENGTH,
            raw == audio_buf.data_raw@,
            sum_right == right_window_sum(raw, index as int, j as nat),
            sum_left == left_window_sum(raw, index as int, j as nat),
            forall|k: nat|
                k <= j ==> {
                    &&& i32::MIN <= #[trigger] right_window_sum(raw, index as int, k) <= i32::MAX
                    &&& i32::MIN <= left_window_sum(raw, index as int, k) <= i32::MAX
                },
        decreases FILTER_TAPS - j,
    {
        let pos: usize = (index + AUDIO_BUF_LENGTH - j) % AUDIO_BUF_LENGTH;
        sum_right = sum_right + audio_buf.data_raw[pos].0 as i64;
        sum_left = sum_left + audio_buf.data_raw[pos].1 as i64;
        if sum_right < i32::MIN as i64 || sum_right > i32::MAX as i64 || sum_left < i32::MIN as i64
            || sum_left > i32::MAX as i64 {
            proof {
                assert(!({
                    &&& i32::MIN <= right_window_sum(raw, index as int, (j + 1) as nat) <= i32::MAX
                    &&& i32::MIN <= left_window_sum(raw, index as int, (j + 1) as nat) <= i32::MAX
                }));
            }
            return false;
        }
        j = j + 1;
        proof {
            assert forall|k: nat| k <= j implies {
                &&& i32::MIN <= #[trigger] right_window_sum(raw, index as int, k) <= i32::MAX
                &&& i32::MIN <= left_window_sum(raw, index as int, k) <= i32::MAX
            } by {
                if k < j {
                }
            }
        }
    }
    true
}

/// The position read `back` samples before `index` lies in the buffer and
/// is `index - back` modulo the buffer length: moving `back` steps forward
/// from it leads to `index` again. Distinct distances within one turn of the
/// ring read distinct positions.
pub proof fn lemma_ring_pos(index: int, back: int)
    requires
        0 <= index < AUDIO_BUF_LENGTH,
        0 <= back < AUDIO_BUF_LENGTH,
    ensures
        0 <= ring_pos(index, back) < AUDIO_BUF_LENGTH,
        (ring_pos(index, back) + back) % (AUDIO_BUF_LENGTH as int) == index,
        back <= index ==> ring_pos(index, back) == index - back,
        back > index ==> ring_pos(index, back) == index - back + AUDIO_BUF_LENGTH,
{
}

/// Rotating the raw samples one place forward moves every filtered window
/// one place forward: the window at `index + 1` of the rotated buffer sums
/// what the window at `index` of the original buffer sums.
pub proof fn lemma_window_rotation(raw: Seq<(i32, i32)>, rotated: Seq<(i32, i32)>, index: int, k: nat)
    requires
        raw.len() == AUDIO_BUF_LENGTH,
        rotated.len() == AUDIO_BUF_LENGTH,
        forall|i: int| 0 <= i < AUDIO_BUF_LENGTH ==> #[trigger] rotated[(i + 1) % 256] == raw[i],
        0 <= index < AUDIO_BUF_LENGTH,
        k <= AUDIO_BUF_LENGTH,
    ensures
        right_window_sum(rotated, (index + 1) % 256, k) == right_window_sum(raw, index, k),
        left_window_sum(rotated, (index + 1) % 256, k) == left_window_sum(raw, index, k),
    decreases k,
{
    if k > 0 {
        lemma_window_rotation(raw, rotated, index, (k - 1) as nat);
        let b = k - 1;
        let p = ring_pos(index, b);
        lemma_ring_pos(index, b);
        lemma_ring_pos((index + 1) % 256, b);
        assert(ring_pos((index + 1) % 256, b) == (p + 1) % 256);
        assert(rotated[(p + 1) % 256] == raw[p]);
    }
}

/// On a buffer that holds the same sample `(right, left)` everywhere, the
/// window of `k` samples sums to `k` times each channel's value.
pub proof fn lemma_constant_window(raw: Seq<(i32, i32)>, index: int, k: nat, right: i32, left: i32)
    requires
        raw.len() == AUDIO_BUF_LENGTH,
        forall|i: int| 0 <= i < AUDIO_BUF_LENGTH ==> #[trigger] raw[i] == (right, left),
        0 <= index < AUDIO_BUF_LENGTH,
        k <= AUDIO_BUF_LENGTH,
    ensures
        right_window_sum(raw, index, k) == k * right,
        left_window_sum(raw, index, k) == k * left,
    decreases k,
{
    if k > 0 {
        lemma_constant_window(raw, index, (k - 1) as nat, right, left);
        lemma_ring_pos(index, k - 1);
        assert(raw[ring_pos(index, k - 1)] == (right, left));
        assert((k - 1) * right + right == k * right && (k - 1) * left + left == k * left)
            by (nonlinear_arith);
    }
}

/// The running sums at `index` stay within `k` times the 16-bit sample range.
proof fn lemma_window_sum_bounds(raw: Seq<(i32, i32)>, index: int, k: nat)
    requires
        raw.len() == AUDIO_BUF_LENGTH,
        0 <= index < AUDIO_BUF_LENGTH,
        k <= FILTER_TAPS,
        forall|i: int|
            0 <= i < AUDIO_BUF_LENGTH ==> -32768 <= #[trigger] raw[i].0 <= 32767 && -32768
                <= raw[i].1 <= 32767,
    ensures
        -32768 * k <= right_window_sum(raw, index, k) <= 32767 * k,
        -32768 * k <= left_window_sum(raw, index, k) <= 32767 * k,
    decreases k,
{
    if k > 0 {
        lemma_window_sum_bounds(raw, index, (k - 1) as nat);
        let p = ring_pos(index, k - 1);
        assert(0 <= p < AUDIO_BUF_LENGTH);
        assert(-32768 <= raw[p].0 <= 32767);
    }
}

/// The filter never overflows on 16-bit audio: when every raw sample lies in
/// the `i16` range, all running sums at any index fit in an `i32`.
pub proof fn lemma_i16_samples_fit(raw: Seq<(i32, i32)>, index: int)
    requires
        raw.len() == AUDIO_BUF_LENGTH,
        0 <= index < AUDIO_BUF_LENGTH,
        forall|i: int|
            0 <= i < AUDIO_BUF_LENGTH ==> -32768 <= #[trigger] raw[i].0 <= 32767 && -32768
                <= raw[i].1 <= 32767,
    ensures
        window_sums_fit(raw, index),
{
    assert forall|k: nat| k <= FILTER_TAPS implies {
        &&& i32::MIN <= #[trigger] right_window_sum(raw, index, k) <= i32::MAX
        &&& i32::MIN <= left_window_sum(raw, index, k) <= i32::MAX
    } by {
        lemma_window_sum_bounds(raw, index, k);
    }
}
} // verus!
