//! Pixel comparison for snapshot tests: two RGBA8 images of the same size
//! are compared pixel by pixel; a pixel differs when the largest of its
//! four per-channel absolute differences exceeds a threshold.

use vstd::prelude::*;

verus! {

/// Absolute difference of two bytes.
pub open spec fn abs_diff(a: u8, b: u8) -> int {
    if a >= b {
        a - b
    } else {
        b - a
    }
}

/// Largest per-channel absolute difference of pixel `p` of two RGBA8
/// images.
pub open spec fn pixel_max_diff(actual: Seq<u8>, expected: Seq<u8>, p: int) -> int {
    let d0 = abs_diff(actual[4 * p], expected[4 * p]);
    let d1 = abs_diff(actual[4 * p + 1], expected[4 * p + 1]);
    let d2 = abs_diff(actual[4 * p + 2], expected[4 * p + 2]);
    let d3 = abs_diff(actual[4 * p + 3], expected[4 * p + 3]);
    let m01 = if d0 >= d1 {
        d0
    } else {
        d1
    };
    let m23 = if d2 >= d3 {
        d2
    } else {
        d3
    };
    if m01 >= m23 {
        m01
    } else {
        m23
    }
}

/// Number of the first `n` pixels whose largest channel difference
/// exceeds `threshold`.
pub open spec fn mismatched_pixels(actual: Seq<u8>, expected: Seq<u8>, n: nat, threshold: int) -> nat
    decreases n,
{
    if n == 0 {
        0
    } else {
        mismatched_pixels(actual, expected, (n - 1) as nat, threshold) + if pixel_max_diff(
            actual,
            expected,
            n - 1,
        ) > threshold {
            1nat
        } else {
            0nat
        }
    }
}

/// Some channel of pixel `p` (red, green, blue or alpha) differs by more
/// than `threshold` between the two images.
pub open spec fn some_channel_differs(actual: Seq<u8>, expected: Seq<u8>, p: int, threshold: int) -> bool {
    exists|i: int|
        #![trigger actual[i]]
        4 * p <= i < 4 * p + 4 && (actual[i] > expected[i] + threshold || expected[i] > actual[i] + threshold)
}

/// A pixel is counted exactly when one of its four channels differs by
/// more than the threshold: the count starts at zero and each pixel adds
/// one exactly when some channel, whichever it is, differs by more.
pub proof fn law_mismatch_counts_any_channel(actual: Seq<u8>, expected: Seq<u8>, n: nat, threshold: int)
    ensures
        mismatched_pixels(actual, expected, 0, threshold) == 0,
        n > 0 ==> mismatched_pixels(actual, expected, n, threshold) == mismatched_pixels(
            actual,
            expected,
            (n - 1) as nat,
            threshold,
        ) + if some_channel_differs(actual, expected, n - 1, threshold) {
            1int
        } else {
            0int
        },
        mismatched_pixels(actual, expected, n, threshold) <= n,
    decreases n,
{
    if n > 0 {
        law_mismatch_counts_any_channel(actual, expected, (n - 1) as nat, threshold);
        let p = n - 1;
        if pixel_max_diff(actual, expected, p) > threshold {
            let d0 = abs_diff(actual[4 * p], expected[4 * p]);
            let d1 = abs_diff(actual[4 * p + 1], expected[4 * p + 1]);
            let d2 = abs_diff(actual[4 * p + 2], expected[4 * p + 2]);
            let d3 = abs_diff(actual[4 * p + 3], expected[4 * p + 3]);
            if d0 > threshold {
                assert(actual[4 * p] == actual[4 * p]);
            } else if d1 > threshold {
                assert(actual[4 * p + 1] == actual[4 * p + 1]);
            } else if d2 > threshold {
                assert(actual[4 * p + 2] == actual[4 * p + 2]);
            } else {
                assert(actual[4 * p + 3] == actual[4 * p + 3]);
            }
        } else {
            if some_channel_differs(actual, expected, p, threshold) {
                let i = choose|i: int|
                    #![trigger actual[i]]
                    4 * p <= i < 4 * p + 4 && (actual[i] > expected[i] + threshold || expected[i] > actual[i]
                        + threshold);
                assert(i == 4 * p || i == 4 * p + 1 || i == 4 * p + 2 || i == 4 * p + 3);
            }
        }
    }
}

fn channel_diff(a: u8, b: u8) -> (r: u8)
    ensures
        r == abs_diff(a, b),
{
    if a >= b {
        a - b
    } else {
        b - a
    }
}

/// Counts the pixels of two RGBA8 images of `num_pixels` pixels whose
/// largest per-channel difference exceeds `max_per_channel`.
pub fn count_mismatched_pixels(actual: &[u8], expected: &[u8], num_pixels: usize, max_per_channel: i32) -> (r: usize)
    requires
        actual@.len() == 4 * num_pixels,
        expected@.len() == 4 * num_pixels,
    ensures
        r == mismatched_pixels(actual@, expected@, num_pixels as nat, max_per_channel as int),
        r <= num_pixels,
{
    let total_bytes = actual.len();
    let mut count: usize = 0;
    let mut p: usize = 0;
    while p < num_pixels
        invariant
            p <= num_pixels,
            total_bytes == 4 * num_pixels,
            actual@.len() == 4 * num_pixels,
            expected@.len() == 4 * num_pixels,
            count == mismatched_pixels(actual@, expected@, p as nat, max_per_channel as int),
            count <= p,
        decreases num_pixels - p,
    {
        let base = 4 * p;
        let d0 = channel_diff(actual[base], expected[base]);
        let d1 = channel_diff(actual[base + 1], expected[base + 1]);
        let d2 = channel_diff(actual[base + 2], expected[base + 2]);
        let d3 = channel_diff(actual[base + 3], expected[base + 3]);
        let m01 = if d0 >= d1 {
            d0
        } else {
            d1
        };
        let m23 = if d2 >= d3 {
            d2
        } else {
            d3
        };
        let m = if m01 >= m23 {
            m01
        } else {
            m23
        };
        assert(m == pixel_max_diff(actual@, expected@, p as int));
        if (m as i32) > max_per_channel {
            count = count + 1;
        }
        p = p + 1;
    }
    count
}

} // verus!
