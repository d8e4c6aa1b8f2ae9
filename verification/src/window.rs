//! Windows of one fixed length, the last one padded with silence.
//!
//! Every window handed to the recognizer has exactly the length asked for, so
//! a buffer whose length is no multiple of it ends in a window whose tail is
//! zero samples. Nothing of the buffer is dropped and nothing is repeated.

use vstd::prelude::*;
use vstd::slice::slice_subrange;
use vstd::slice::slice_to_vec;

use crate::enums::TlapError;
use crate::speech::lines_view;

verus! {

/// How many windows of `window_len` samples a buffer of `len` samples fills:
/// `len / window_len`, rounded up. No window has length zero, so for
/// `window_len == 0` there are none.
pub open spec fn window_count(len: nat, window_len: nat) -> nat {
    if window_len == 0 {
        0
    } else {
        ((len + window_len - 1) / (window_len as int)) as nat
    }
}

/// Window `k` of the buffer: the samples from `k * window_len` on, and zero
/// wherever the buffer has ended.
pub open spec fn padded_window(buf: Seq<i16>, window_len: nat, k: nat) -> Seq<i16> {
    Seq::new(
        window_len,
        |j: int|
            if k * window_len + j < buf.len() {
                buf[k * window_len + j]
            } else {
                0i16
            },
    )
}

/// All windows of the buffer, in order.
pub open spec fn fixed_windows(buf: Seq<i16>, window_len: nat) -> Seq<Seq<i16>> {
    Seq::new(window_count(buf.len(), window_len), |k: int| padded_window(buf, window_len, k as nat))
}

/// The window count is the least number of windows that hold the buffer.
pub proof fn lemma_window_count(len: nat, window_len: nat)
    requires
        window_len > 0,
    ensures
        window_count(len, window_len) * window_len >= len,
        window_count(len, window_len) > 0 ==> (window_count(len, window_len) - 1) * window_len
            < len,
        len == 0 <==> window_count(len, window_len) == 0,
        window_count(len, window_len) == len / window_len + if len % window_len == 0 {
            0int
        } else {
            1int
        },
{
    let w = window_len as int;
    let a = len + w - 1;
    let c = a / w;
    vstd::arithmetic::div_mod::lemma_fundamental_div_mod(a, w);
    vstd::arithmetic::div_mod::lemma_fundamental_div_mod(len as int, w);
    vstd::arithmetic::div_mod::lemma_mod_bound(a, w);
    vstd::arithmetic::div_mod::lemma_mod_bound(len as int, w);
    vstd::arithmetic::div_mod::lemma_div_pos_is_pos(a, w);
    let q = len as int / w;
    let r = len as int % w;
    assert(c * w == w * c) by (nonlinear_arith);
    assert((c - 1) * w == c * w - w) by (nonlinear_arith);
    assert(q * w == w * q) by (nonlinear_arith);
    if r == 0 {
        assert(a == w * q + (w - 1));
        vstd::arithmetic::div_mod::lemma_fundamental_div_mod_converse(a, w, q, w - 1);
    } else {
        assert(a == w * (q + 1) + (r - 1)) by (nonlinear_arith)
            requires
                a == len + w - 1,
                len == w * q + r,
        ;
        vstd::arithmetic::div_mod::lemma_fundamental_div_mod_converse(a, w, q + 1, r - 1);
    }
    if len == 0 {
        assert(q == 0 && r == 0) by (nonlinear_arith)
            requires
                0 == w * q + r,
                0 <= r < w,
                q >= 0,
        ;
    }
}

/// Every window before the last begins inside the buffer.
proof fn lemma_window_start(len: nat, window_len: nat, k: nat)
    requires
        k < window_count(len, window_len),
    ensures
        k * window_len < len,
        k * window_len + window_len <= window_count(len, window_len) * window_len,
{
    lemma_window_count(len, window_len);
    let c = window_count(len, window_len) as int;
    let w = window_len as int;
    assert(k * w <= (c - 1) * w) by (nonlinear_arith)
        requires
            k <= c - 1,
            w > 0,
    ;
    assert((c - 1) * w + w == c * w) by (nonlinear_arith);
}

/// How many windows of `window_len` samples a buffer of `len` samples fills.
pub fn count_windows(len: usize, window_len: usize) -> (count: usize)
    ensures
        count == window_count(len as nat, window_len as nat),
{
    if window_len == 0 {
        0
    } else {
        proof {
            lemma_window_count(len as nat, window_len as nat);
        }
        if len % window_len == 0 {
            len / window_len
        } else {
            proof {
                let q = len as int / window_len as int;
                assert(q <= q * window_len) by (nonlinear_arith)
                    requires
                        q >= 0,
                        window_len >= 1,
                ;
            }
            len / window_len + 1
        }
    }
}

/// `window_len` samples from `start` on, with zeros where the buffer has ended.
fn padded_copy(buf: &Vec<i16>, start: usize, window_len: usize) -> (window: Vec<i16>)
    requires
        start <= buf@.len(),
    ensures
        window@ == Seq::new(
            window_len as nat,
            |j: int|
                if start + j < buf@.len() {
                    buf@[start + j]
                } else {
                    0i16
                },
        ),
{
    let left = buf.len() - start;
    let taken = if left < window_len {
        left
    } else {
        window_len
    };
    let mut window = slice_to_vec(slice_subrange(buf.as_slice(), start, start + taken));
    let ghost copied = window@;
    window.resize(window_len, 0i16);
    proof {
        assert(window@.len() == window_len);
        assert forall|j: int| 0 <= j < window_len implies window@[j] == (if start + j < buf@.len() {
            buf@[start + j]
        } else {
            0i16
        }) by {
            if j < taken {
                assert(window@.subrange(0, taken as int)[j] == copied[j]);
            }
        }
        assert(window@ =~= Seq::new(
            window_len as nat,
            |j: int|
                if start + j < buf@.len() {
                    buf@[start + j]
                } else {
                    0i16
                },
        ));
    }
    window
}

/// Window `k` of the buffer, or `None` where the buffer has fewer windows.
/// Windows can be had one at a time, in any order, without cutting the rest.
pub fn window_at(buffer: &Vec<i16>, window_len: usize, k: usize) -> (r: Option<Vec<i16>>)
    ensures
        r is Some <==> k < window_count(buffer@.len(), window_len as nat),
        r matches Some(window) ==> window@ == padded_window(buffer@, window_len as nat, k as nat),
{
    if k < count_windows(buffer.len(), window_len) {
        proof {
            lemma_window_start(buffer@.len(), window_len as nat, k as nat);
        }
        let window = padded_copy(buffer, k * window_len, window_len);
        proof {
            assert(window@ =~= padded_window(buffer@, window_len as nat, k as nat));
        }
        Some(window)
    } else {
        None
    }
}

/// Cuts the buffer into windows of exactly `window_len` samples, the last one
/// padded with zero samples. An empty buffer has no windows. A window length
/// of zero cannot hold any sample: with it, only the empty buffer can be cut.
pub fn segment(buffer: &Vec<i16>, window_len: usize) -> (r: Result<Vec<Vec<i16>>, TlapError>)
    ensures
        match r {
            Ok(windows) => {
                &&& window_len > 0 || buffer@.len() == 0
                &&& lines_view(windows@) == fixed_windows(buffer@, window_len as nat)
            },
            Err(e) => e == TlapError::AudioSplitFailed && window_len == 0 && buffer@.len() > 0,
        },
{
    let mut windows: Vec<Vec<i16>> = Vec::new();
    if window_len == 0 {
        if buffer.len() > 0 {
            return Err(TlapError::AudioSplitFailed);
        }
        assert(lines_view(windows@) =~= fixed_windows(buffer@, window_len as nat));
        return Ok(windows);
    }
    let count = count_windows(buffer.len(), window_len);
    let mut k: usize = 0;
    while k < count
        invariant
            count == window_count(buffer@.len(), window_len as nat),
            0 <= k <= count,
            windows@.len() == k,
            forall|j: int|
                0 <= j < k ==> (#[trigger] windows@[j])@ == padded_window(
                    buffer@,
                    window_len as nat,
                    j as nat,
                ),
        decreases count - k,
    {
        match window_at(buffer, window_len, k) {
            Some(window) => {
                windows.push(window);
            },
            None => {
                return Err(TlapError::AudioSplitFailed);
            },
        }
        k = k + 1;
    }
    proof {
        assert(lines_view(windows@) =~= fixed_windows(buffer@, window_len as nat));
    }
    Ok(windows)
}

/// Rows of one width, put one after the other: row `k` fills the positions
/// from `k * width` on.
proof fn lemma_flatten_uniform(rows: Seq<Seq<i16>>, width: nat)
    requires
        forall|k: int| 0 <= k < rows.len() ==> (#[trigger] rows[k]).len() == width,
    ensures
        rows.flatten().len() == rows.len() * width,
        forall|k: int, j: int|
            0 <= k < rows.len() && 0 <= j < width ==> rows.flatten()[k * width + j]
                == #[trigger] rows[k][j],
    decreases rows.len(),
{
    if rows.len() == 0 {
        assert(rows.flatten() =~= Seq::<i16>::empty());
        assert(rows.len() * width == 0) by (nonlinear_arith)
            requires
                rows.len() == 0,
        ;
    } else {
        let head = rows.drop_last();
        let m = head.len() as int;
        lemma_flatten_uniform(head, width);
        assert(rows =~= head.push(rows.last()));
        head.lemma_flatten_push(rows.last());
        assert((m + 1) * width == m * width + width) by (nonlinear_arith);
        assert forall|k: int, j: int| 0 <= k < rows.len() && 0 <= j < width implies rows.flatten()[k
            * width + j] == #[trigger] rows[k][j] by {
            if k < m {
                assert(head[k][j] == rows[k][j]);
                assert(k * width + j < m * width) by (nonlinear_arith)
                    requires
                        0 <= k < m,
                        0 <= j < width,
                ;
                assert(0 <= k * width) by (nonlinear_arith)
                    requires
                        0 <= k,
                ;
            }
        }
    }
}

/// Cutting into fixed windows loses nothing: all windows have the length
/// asked for, and the windows put one after the other, without the padding
/// at the end, are the buffer again.
pub proof fn lemma_fixed_windows_cover_buffer(buf: Seq<i16>, window_len: nat)
    requires
        window_len > 0,
    ensures
        forall|k: int|
            0 <= k < fixed_windows(buf, window_len).len() ==> (#[trigger] fixed_windows(
                buf,
                window_len,
            )[k]).len() == window_len,
        fixed_windows(buf, window_len).flatten().len() >= buf.len(),
        fixed_windows(buf, window_len).flatten().take(buf.len() as int) == buf,
{
    let windows = fixed_windows(buf, window_len);
    let flat = windows.flatten();
    let w = window_len as int;
    lemma_window_count(buf.len(), window_len);
    lemma_flatten_uniform(windows, window_len);
    assert forall|i: int| 0 <= i < buf.len() implies flat[i] == buf[i] by {
        let k = i / w;
        let j = i % w;
        vstd::arithmetic::div_mod::lemma_fundamental_div_mod(i, w);
        vstd::arithmetic::div_mod::lemma_mod_bound(i, w);
        vstd::arithmetic::div_mod::lemma_div_pos_is_pos(i, w);
        assert(k * w == w * k) by (nonlinear_arith);
        assert(k < windows.len()) by (nonlinear_arith)
            requires
                windows.len() * w >= buf.len(),
                k * w + j == i,
                0 <= j,
                i < buf.len(),
                w > 0,
        ;
        assert(windows[k][j] == buf[i]);
    }
    assert(flat.take(buf.len() as int) =~= buf);
}

/// The last window of a buffer whose length is no multiple of the window
/// length: it begins with what is left of the buffer, and all the rest of it
/// is zero.
pub proof fn lemma_last_window_padding(buf: Seq<i16>, window_len: nat)
    requires
        window_len > 0,
        buf.len() % window_len != 0,
    ensures
        fixed_windows(buf, window_len).len() == buf.len() / window_len + 1,
        fixed_windows(buf, window_len).last().take((buf.len() % window_len) as int)
            == buf.subrange(buf.len() - buf.len() % window_len, buf.len() as int),
        fixed_windows(buf, window_len).last().skip((buf.len() % window_len) as int) == Seq::new(
            (window_len - buf.len() % window_len) as nat,
            |j: int| 0i16,
        ),
{
    let w = window_len as int;
    let n = buf.len() as int;
    let q = n / w;
    let r = n % w;
    lemma_window_count(buf.len(), window_len);
    vstd::arithmetic::div_mod::lemma_fundamental_div_mod(n, w);
    vstd::arithmetic::div_mod::lemma_mod_bound(n, w);
    assert(q * w == w * q) by (nonlinear_arith);
    let last = fixed_windows(buf, window_len).last();
    assert(last == padded_window(buf, window_len, q as nat));
    assert(last.take(r) =~= buf.subrange(n - r, n));
    assert(last.skip(r) =~= Seq::new((w - r) as nat, |j: int| 0i16));
}

} // verus!
