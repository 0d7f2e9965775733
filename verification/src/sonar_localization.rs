use vstd::prelude::*;
use crate::filter::AUDIO_BUF_LENGTH;

verus! {

/// Whether the signal falls from positive to non-positive between sample
/// `i - 1` and sample `i`.
pub open spec fn is_falling_zero(s: Seq<i32>, i: int) -> bool {
    &&& 1 <= i < s.len()
    &&& s[i - 1] > 0
    &&& s[i] <= 0
}

/// Number of falling zero crossings at the indices below `n`.
pub open spec fn falling_zero_count(s: Seq<i32>, n: int) -> nat
    decreases n,
{
    if n <= 0 {
        0
    } else {
        falling_zero_count(s, n - 1) + if is_falling_zero(s, n - 1) {
            1nat
        } else {
            0nat
        }
    }
}

/// Splits interleaved `(right, left)` samples into the left channel and the
/// right channel, in that order.
pub fn split_channels(data: &[(i32, i32)]) -> (channels: (
    [i32; AUDIO_BUF_LENGTH],
    [i32; AUDIO_BUF_LENGTH],
))
    requires
        data.len() >= AUDIO_BUF_LENGTH,
    ensures
        forall|i: int|
            0 <= i < AUDIO_BUF_LENGTH ==> #[trigger] channels.0@[i] == data@[i].1 && channels.1@[i]
                == data@[i].0,
{
    let mut data1: [i32; AUDIO_BUF_LENGTH] = [0i32; 256];
    let mut data2: [i32; AUDIO_BUF_LENGTH] = [0i32; 256];
    let mut i: usize = 0;
    while i < AUDIO_BUF_LENGTH
        invariant
            data.len() >= AUDIO_BUF_LENGTH,
            i <= AUDIO_BUF_LENGTH,
            forall|j: int|
                0 <= j < i ==> #[trigger] data1@[j] == data@[j].1 && data2@[j] == data@[j].0,
        decreases AUDIO_BUF_LENGTH - i,
    {
        data2[i] = data[i].0;
        data1[i] = data[i].1;
        i += 1;
    }
    (data1, data2)
}

/// The index of the first sample at which the signal falls from positive to
/// non-positive, if there is one.
pub fn first_zero_crossing(data: &[i32]) -> (r: Option<u32>)
    requires
        data.len() <= u32::MAX,
    ensures
        match r {
            Some(i) => is_falling_zero(data@, i as int) && falling_zero_count(data@, i as int) == 0,
            None => falling_zero_count(data@, data.len() as int) == 0,
        },
        match r {
            Some(i) => {
                &&& 1 <= i < data.len()
                &&& data@[i - 1] > 0
                &&& data@[i as int] <= 0
                &&& forall|j: int| 1 <= j < i ==> !(#[trigger] data@[j - 1] > 0 && data@[j] <= 0)
            },
            None => forall|j: int|
                1 <= j < data.len() ==> !(#[trigger] data@[j - 1] > 0 && data@[j] <= 0),
        },
{
    let mut prev_data: i32 = 0;
    let mut not_first = false;
    let mut counter: u32 = 0;
    let mut idx: usize = 0;
    while idx < data.len()
        invariant
            data.len() <= u32::MAX,
            idx <= data.len(),
            counter == idx,
            not_first == (idx > 0),
            idx > 0 ==> prev_data == data@[idx - 1],
            falling_zero_count(data@, idx as int) == 0,
            forall|j: int| 1 <= j < idx ==> !(#[trigger] data@[j - 1] > 0 && data@[j] <= 0),
        decreases data.len() - idx,
    {
        let current_data = data[idx];
        if not_first {
            if (prev_data > 0) && (current_data <= 0) {
                return Some(counter);
            }
        } else {
            not_first = true;
        }
        prev_data = current_data;
        counter += 1;
        idx += 1;
    }
    None
}

/// The index of the second sample at which the signal falls from positive
/// to non-positive, if there is one.
pub fn second_zero_crossing(data: &[i32]) -> (r: Option<u32>)
    requires
        data.len() <= u32::MAX,
    ensures
        match r {
            Some(i) => is_falling_zero(data@, i as int) && falling_zero_count(data@, i as int) == 1,
            None => falling_zero_count(data@, data.len() as int) <= 1,
        },
        match r {
            Some(i) => {
                &&& 1 <= i < data.len()
                &&& data@[i - 1] > 0
                &&& data@[i as int] <= 0
                &&& exists|f: int|
                    1 <= f < i && #[trigger] data@[f - 1] > 0 && data@[f] <= 0 && forall|j: int|
                        1 <= j < i && j != f ==> !(#[trigger] data@[j - 1] > 0 && data@[j] <= 0)
            },
            None => forall|f: int, j: int|
                1 <= f < j < data.len() && #[trigger] data@[f - 1] > 0 && data@[f] <= 0 ==> !(
                #[trigger] data@[j - 1] > 0 && data@[j] <= 0),
        },
{
    let mut prev_data: i32 = 0;
    let mut not_first = false;
    let mut first_zero = true;
    let mut counter: u32 = 0;
    let mut idx: usize = 0;
    let ghost mut f: int = 0;
    while idx < data.len()
        invariant
            data.len() <= u32::MAX,
            idx <= data.len(),
            counter == idx,
            not_first == (idx > 0),
            idx > 0 ==> prev_data == data@[idx - 1],
            first_zero == (falling_zero_count(data@, idx as int) == 0),
            falling_zero_count(data@, idx as int) <= 1,
            first_zero ==> forall|j: int|
                1 <= j < idx ==> !(#[trigger] data@[j - 1] > 0 && data@[j] <= 0),
            !first_zero ==> 1 <= f < idx && data@[f - 1] > 0 && data@[f] <= 0 && forall|j: int|
                1 <= j < idx && j != f ==> !(#[trigger] data@[j - 1] > 0 && data@[j] <= 0),
        decreases data.len() - idx,
    {
        let current_data = data[idx];
        if not_first {
            if (prev_data > 0) && (current_data <= 0) {
                if !first_zero {
                    assert(data@[f - 1] > 0 && data@[f] <= 0);
                    return Some(counter);
                }
                first_zero = false;
                proof {
                    f = idx as int;
                }
            }
        } else {
            not_first = true;
        }
        prev_data = current_data;
        counter += 1;
        idx += 1;
    }
    proof {
        assert forall|f2: int, j: int|
            1 <= f2 < j < data.len() && #[trigger] data@[f2 - 1] > 0 && data@[f2] <= 0 implies !(
            #[trigger] data@[j - 1] > 0 && data@[j] <= 0) by {
            if !first_zero {
                if f2 != f {
                } else {
                    assert(j != f);
                }
            }
        }
    }
    None
}

/// A falling zero crossing at `i` is a fall from a positive sample to a
/// non-positive one, on the full `i32` values.
pub proof fn lemma_falling_zero_by_values(s: Seq<i32>, i: int)
    ensures
        is_falling_zero(s, i) <==> (1 <= i < s.len() && s[i - 1] > 0 && s[i] <= 0),
{
}

/// No falling zero crossing lies where the signal stays strictly positive
/// or where it starts from a non-positive sample.
pub proof fn lemma_no_crossing_without_fall(s: Seq<i32>, i: int)
    requires
        1 <= i < s.len(),
        s[i] > 0 || s[i - 1] <= 0,
    ensures
        !is_falling_zero(s, i),
{
}

/// A crossing count is zero exactly when no sample before the bound falls
/// from positive to non-positive.
pub proof fn lemma_count_zero_iff_no_fall(s: Seq<i32>, n: int)
    requires
        0 <= n <= s.len(),
    ensures
        (falling_zero_count(s, n) == 0) <==> (forall|j: int|
            1 <= j < n ==> !(#[trigger] s[j - 1] > 0 && s[j] <= 0)),
    decreases n,
{
    if n > 0 {
        lemma_count_zero_iff_no_fall(s, n - 1);
        if falling_zero_count(s, n) == 0 {
            assert forall|j: int| 1 <= j < n implies !(#[trigger] s[j - 1] > 0 && s[j] <= 0) by {
                if j < n - 1 {
                } else {
                    assert(!is_falling_zero(s, n - 1));
                }
            }
        } else if falling_zero_count(s, n - 1) == 0 {
            assert(is_falling_zero(s, n - 1));
            assert(s[n - 1 - 1] > 0 && s[n - 1] <= 0);
        }
    }
}

/// The number of falling zero crossings only grows along the signal.
proof fn lemma_count_monotone(s: Seq<i32>, a: int, b: int)
    requires
        a <= b,
    ensures
        falling_zero_count(s, a) <= falling_zero_count(s, b),
    decreases b - a,
{
    if a < b {
        lemma_count_monotone(s, a, b - 1);
    }
}

/// A second falling zero crossing exists only after a first one, and lies
/// strictly after it.
pub proof fn lemma_second_after_first(s: Seq<i32>, first: int, second: int)
    requires
        is_falling_zero(s, first),
        falling_zero_count(s, first) == 0,
        is_falling_zero(s, second),
        falling_zero_count(s, second) == 1,
    ensures
        first < second,
{
    if second <= first {
        lemma_count_monotone(s, second, first);
    }
}

/// A signal with a second falling zero crossing also has a first one,
/// which lies before it.
pub proof fn lemma_second_implies_first(s: Seq<i32>, second: int)
    requires
        is_falling_zero(s, second),
        falling_zero_count(s, second) == 1,
    ensures
        exists|first: int|
            first < second && is_falling_zero(s, first) && falling_zero_count(s, first) == 0,
    decreases second,
{
    if second > 0 && falling_zero_count(s, second - 1) == 1 {
        lemma_second_implies_first_from(s, second - 1);
    } else {
        assert(is_falling_zero(s, second - 1));
        assert(falling_zero_count(s, second - 1) == 0);
    }
}

proof fn lemma_second_implies_first_from(s: Seq<i32>, n: int)
    requires
        falling_zero_count(s, n) == 1,
    ensures
        exists|first: int| first < n && is_falling_zero(s, first) && falling_zero_count(s, first) == 0,
    decreases n,
{
    if n <= 0 {
    } else if falling_zero_count(s, n - 1) == 1 {
        lemma_second_implies_first_from(s, n - 1);
    } else {
        assert(is_falling_zero(s, n - 1) && falling_zero_count(s, n - 1) == 0);
    }
}

} // verus!
