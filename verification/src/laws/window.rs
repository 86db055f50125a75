//! Laws of the window.
use crate::exact::is_exact;
use crate::exact::lemma_cancel;
use crate::exact::lemma_commute;
use crate::exact::lemma_distribute;
use crate::exact::lemma_not_negative;
use crate::exact::lemma_regroup;
use crate::exact::lemma_scale_order;
use crate::laws::reorder::has_steady_cosine;
use crate::merge::is_hann;
use crate::merge::is_hann_angle;
use crate::merge::is_hann_window;
use crate::merge::is_window;
use crate::plane::Plane;
use crate::sample::is_count;
use crate::sample::is_difference;
use crate::sample::is_product;
use crate::sample::is_quotient;
use crate::sample::is_ratio;
use crate::sample::Sample;
use vstd::prelude::*;

verus! {

/// Cosines lie between minus one and one; those of nothing and of a full turn are
/// one, that of half a turn is minus one, and angles that make up a full turn have
/// the same cosine.
pub open spec fn has_true_cosine<T: Sample>(value: spec_fn(T) -> real) -> bool {
    &&& forall|p: T, q: T| #[trigger]
        call_ensures(T::half_turn, (), p) && #[trigger] call_ensures(T::half_turn, (), q) ==> value(
            p,
        ) == value(q)
    &&& forall|a: T, u: T| #[trigger]
        call_ensures(T::cosine, (a,), u) ==> 0real - 1real <= value(u) <= 1real && (value(a) == 0real
            ==> value(u) == 1real)
    &&& forall|a: T, u: T, pi: T| #[trigger]
        call_ensures(T::cosine, (a,), u) && #[trigger] call_ensures(T::half_turn, (), pi) ==> {
            &&& value(a) == value(pi) ==> value(u) == 0real - 1real
            &&& value(a) == 2real * value(pi) ==> value(u) == 1real
        }
    &&& forall|a: T, u: T, b: T, v: T, pi: T|
        value(a) + value(b) == 2real * value(pi) && #[trigger] call_ensures(T::cosine, (a,), u)
            && #[trigger] call_ensures(T::cosine, (b,), v) && #[trigger] call_ensures(
            T::half_turn,
            (),
            pi,
        ) ==> value(u) == value(v)
}

/// The angle at a place of the window, as a part of a full turn.
proof fn lemma_angle<T: Sample>(value: spec_fn(T) -> real, i: usize, n: usize, angle: T) -> (pi: T)
    requires
        is_exact(value),
        2 <= n,
        is_hann_angle(i, n, angle),
    ensures
        call_ensures(T::half_turn, (), pi),
        value(angle) * ((n - 1) as real) == (2real * value(pi)) * (i as real),
{
    let (two, pi, turn, at, part, last) = choose|
        two: T,
        pi: T,
        turn: T,
        at: T,
        part: T,
        last: T,
    |
        {
            &&& is_ratio(2, 1, two)
            &&& call_ensures(T::half_turn, (), pi)
            &&& #[trigger] is_product(two, pi, turn)
            &&& is_count(i, at)
            &&& #[trigger] is_product(turn, at, part)
            &&& is_count((n - 1) as usize, last)
            &&& #[trigger] is_quotient(part, last, angle)
        };
    assert(value(two) * 1real == 2real);
    assert(value(two) * value(pi) == 2real * value(pi));
    assert(value(last) == (n - 1) as real);
    pi
}

/// The window at a place, by the cosine of its angle.
proof fn lemma_hann<T: Sample>(value: spec_fn(T) -> real, i: usize, n: usize, v: T) -> (at: (T, T))
    requires
        is_exact(value),
        is_hann(i, n, v),
    ensures
        is_hann_angle(i, n, at.0),
        call_ensures(T::cosine, (at.0,), at.1),
        2real * value(v) == 1real - value(at.1),
{
    let (angle, cos, one, rest, half) = choose|angle: T, cos: T, one: T, rest: T, half: T|
        {
            &&& is_hann_angle(i, n, angle)
            &&& #[trigger] call_ensures(T::cosine, (angle,), cos)
            &&& is_ratio(1, 1, one)
            &&& #[trigger] is_difference(one, cos, rest)
            &&& is_ratio(1, 2, half)
            &&& #[trigger] is_product(half, rest, v)
        };
    assert(value(one) * 1real == 1real);
    assert(value(half) * 2real == 1real);
    assert(value(half) * value(rest) == (1real / 2real) * value(rest));
    (angle, cos)
}

/// The window along one line: between zero and one, zero at both ends, and one in
/// the middle where there is one.
proof fn lemma_hann_values<T: Sample>(value: spec_fn(T) -> real, i: usize, n: usize, v: T)
    requires
        is_exact(value),
        has_true_cosine(value),
        i < n,
        is_hann(i, n, v),
    ensures
        0real <= value(v) <= 1real,
        2 <= n && (i == 0 || i == n - 1) ==> value(v) == 0real,
        3 <= n && 2 * i == n - 1 ==> value(v) == 1real,
{
    let (angle, cos) = lemma_hann(value, i, n, v);
    if 2 <= n {
        let pi = lemma_angle(value, i, n, angle);
        let m = (n - 1) as real;
        let turn = 2real * value(pi);
        if i == 0 {
            assert(turn * 0real == 0real);
            assert(0real * m == 0real);
            lemma_cancel(value(angle), 0real, m);
        } else if i == n - 1 {
            lemma_cancel(value(angle), turn, m);
        }
        if 3 <= n && 2 * i == n - 1 {
            let k = i as real;
            assert(m == 2real * k);
            // angle * (2 * k) == (2 * pi) * k == pi * (2 * k)
            lemma_regroup(value(pi), 2real, k);
            lemma_commute(value(pi), 2real);
            assert(value(angle) * m == value(pi) * m);
            lemma_cancel(value(angle), value(pi), m);
        }
    }
}

/// The window along one line is the same from both ends.
proof fn lemma_hann_symmetry<T: Sample>(
    value: spec_fn(T) -> real,
    i: usize,
    j: usize,
    n: usize,
    u: T,
    v: T,
)
    requires
        is_exact(value),
        has_true_cosine(value),
        2 <= n,
        i + j == n - 1,
        is_hann(i, n, u),
        is_hann(j, n, v),
    ensures
        value(u) == value(v),
{
    let (a, x) = lemma_hann(value, i, n, u);
    let (b, y) = lemma_hann(value, j, n, v);
    let p = lemma_angle(value, i, n, a);
    let q = lemma_angle(value, j, n, b);
    let m = (n - 1) as real;
    let turn = 2real * value(p);
    assert(value(p) == value(q));
    lemma_distribute(m, value(a), value(b));
    lemma_distribute(turn, i as real, j as real);
    assert(i as real + j as real == m);
    lemma_cancel(value(a) + value(b), turn, m);
}

/// The line that both directions of a window are made of.
proof fn lemma_line_of<T: Sample>(n: usize, window: Plane<T>) -> (hann: Seq<T>)
    requires
        is_window(n, window),
    ensures
        is_hann_window(n, hann),
        forall|r: int, c: int|
            window.has(r, c) ==> is_product(hann[r], hann[c], #[trigger] window.at(r, c)),
{
    choose|hann: Seq<T>| #[trigger]
        is_hann_window(n, hann) && forall|r: int, c: int|
            window.has(r, c) ==> is_product(hann[r], hann[c], #[trigger] window.at(r, c))
}

/// The window lies between zero and one.
pub proof fn window_stays_in_range<T: Sample>(
    value: spec_fn(T) -> real,
    n: usize,
    window: Plane<T>,
    r: int,
    c: int,
)
    requires
        is_exact(value),
        has_true_cosine(value),
        is_window(n, window),
        window.has(r, c),
    ensures
        0real <= value(window.at(r, c)) <= 1real,
{
    let hann = lemma_line_of(n, window);
    lemma_hann_values(value, r as usize, n, hann[r]);
    lemma_hann_values(value, c as usize, n, hann[c]);
    let (a, b) = (value(hann[r]), value(hann[c]));
    assert(is_product(hann[r], hann[c], window.at(r, c)));
    lemma_not_negative(a, b);
    lemma_scale_order(a, 1real, b);
    assert(1real * b == b);
}

/// The window tapers to zero at the edges: its first and last row and column are
/// zero.
pub proof fn window_is_zero_at_the_edges<T: Sample>(
    value: spec_fn(T) -> real,
    n: usize,
    window: Plane<T>,
    r: int,
    c: int,
)
    requires
        is_exact(value),
        has_true_cosine(value),
        2 <= n,
        is_window(n, window),
        window.has(r, c),
        r == 0 || r == n - 1 || c == 0 || c == n - 1,
    ensures
        value(window.at(r, c)) == 0real,
{
    let hann = lemma_line_of(n, window);
    lemma_hann_values(value, r as usize, n, hann[r]);
    lemma_hann_values(value, c as usize, n, hann[c]);
    assert(is_product(hann[r], hann[c], window.at(r, c)));
    assert(0real * value(hann[c]) == 0real);
    assert(value(hann[r]) * 0real == 0real);
}

/// The window peaks at one at its center, where it has one: for an odd size.
pub proof fn window_peaks_at_the_center<T: Sample>(
    value: spec_fn(T) -> real,
    n: usize,
    window: Plane<T>,
    m: int,
)
    requires
        is_exact(value),
        has_true_cosine(value),
        3 <= n,
        2 * m + 1 == n,
        is_window(n, window),
    ensures
        value(window.at(m, m)) == 1real,
{
    let hann = lemma_line_of(n, window);
    lemma_hann_values(value, m as usize, n, hann[m]);
    assert(window.has(m, m));
    assert(is_product(hann[m], hann[m], window.at(m, m)));
    assert(1real * value(hann[m]) == value(hann[m]));
}

/// The window is the same from all sides: turned upside down, left to right, and
/// with rows and columns exchanged.
pub proof fn window_is_symmetric<T: Sample>(
    value: spec_fn(T) -> real,
    n: usize,
    window: Plane<T>,
    r: int,
    c: int,
)
    requires
        is_exact(value),
        has_true_cosine(value),
        2 <= n,
        is_window(n, window),
        window.has(r, c),
    ensures
        value(window.at(n - 1 - r, c)) == value(window.at(r, c)),
        value(window.at(r, n - 1 - c)) == value(window.at(r, c)),
        value(window.at(c, r)) == value(window.at(r, c)),
{
    let hann = lemma_line_of(n, window);
    let (s, d) = (n - 1 - r, n - 1 - c);
    assert(is_hann(r as usize, n, hann[r]) && is_hann(s as usize, n, hann[s]));
    assert(is_hann(c as usize, n, hann[c]) && is_hann(d as usize, n, hann[d]));
    lemma_hann_symmetry(value, r as usize, s as usize, n, hann[r], hann[s]);
    lemma_hann_symmetry(value, c as usize, d as usize, n, hann[c], hann[d]);
    assert(window.has(s, c) && window.has(r, d) && window.has(c, r));
    assert(is_product(hann[r], hann[c], window.at(r, c)));
    assert(is_product(hann[s], hann[c], window.at(s, c)));
    assert(is_product(hann[r], hann[d], window.at(r, d)));
    assert(is_product(hann[c], hann[r], window.at(c, r)));
    lemma_commute(value(hann[r]), value(hann[c]));
}

/// The window along one line, by the cosine of any angle that is as great a part of a
/// full turn as the place is of the line.
proof fn lemma_hann_by_angle<T: Sample>(
    value: spec_fn(T) -> real,
    n: usize,
    i: usize,
    h: T,
    pi: T,
    angle: T,
    cos: T,
)
    requires
        is_exact(value),
        has_steady_cosine(value),
        2 <= n,
        is_hann(i, n, h),
        call_ensures(T::half_turn, (), pi),
        value(angle) * ((n - 1) as real) == (2real * value(pi)) * (i as real),
        call_ensures(T::cosine, (angle,), cos),
    ensures
        2real * value(h) == 1real - value(cos),
{
    let at = lemma_hann(value, i, n, h);
    let turn = lemma_angle(value, i, n, at.0);
    assert(value(turn) == value(pi));
    lemma_cancel(value(at.0), value(angle), (n - 1) as real);
    assert(value(at.1) == value(cos));
}

/// The window at `(r, c)` is the product of two Hann windows, each half of one minus
/// the cosine of the place's part of a full turn: `a` and `b` are the angles, and `u`
/// and `v` their cosines.
pub proof fn windows_follow_the_cosine<T: Sample>(
    value: spec_fn(T) -> real,
    n: usize,
    window: Plane<T>,
    r: int,
    c: int,
    pi: T,
    a: T,
    u: T,
    b: T,
    v: T,
)
    requires
        is_exact(value),
        has_steady_cosine(value),
        2 <= n,
        is_window(n, window),
        0 <= r < n,
        0 <= c < n,
        call_ensures(T::half_turn, (), pi),
        value(a) * ((n - 1) as real) == (2real * value(pi)) * (r as real),
        call_ensures(T::cosine, (a,), u),
        value(b) * ((n - 1) as real) == (2real * value(pi)) * (c as real),
        call_ensures(T::cosine, (b,), v),
    ensures
        window.has(r, c),
        4real * value(window.at(r, c)) == (1real - value(u)) * (1real - value(v)),
{
    let hann = choose|hann: Seq<T>| #[trigger]
        is_hann_window(n, hann) && forall|i: int, j: int|
            window.has(i, j) ==> is_product(hann[i], hann[j], #[trigger] window.at(i, j));
    assert(window.has(r, c));
    assert(is_product(hann[r], hann[c], window.at(r, c)));
    lemma_hann_by_angle(value, n, r as usize, hann[r], pi, a, u);
    lemma_hann_by_angle(value, n, c as usize, hann[c], pi, b, v);
    let (x, y) = (value(hann[r]), value(hann[c]));
    lemma_regroup(2real * x, 2real, y);
    lemma_commute(2real * x, 2real);
    lemma_regroup(2real, 2real, x);
    lemma_regroup(4real, x, y);
    assert(2real * (2real * x) == 4real * x);
}

} // verus!
