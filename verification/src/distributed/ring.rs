//! Summing the gradients of all ranks around a ring.

use crate::tensor::arith::Scalar;
use vstd::prelude::*;

verus! {

/// How far rank `x` is from rank `c` along a ring of `w` ranks.
pub open spec fn distance(x: int, c: int, w: int) -> int {
    if x >= c {
        x - c
    } else {
        x + w - c
    }
}

/// The rank `k` places after rank `c`.
pub open spec fn rank_after(c: int, k: int, w: int) -> int {
    if c + k < w {
        c + k
    } else {
        c + k - w
    }
}

/// The sum of element `j` on the way from rank `c` over the next `k` ranks, each of which adds
/// its own value to what it gets.
pub open spec fn partial<T: Scalar>(grads: Seq<Seq<T>>, c: int, k: nat, j: int) -> T
    decreases k,
{
    if k == 0 {
        grads[c][j]
    } else {
        grads[rank_after(c, k as int, grads.len() as int)][j].sum(
            partial(grads, c, (k - 1) as nat, j),
        )
    }
}

/// The length of the pieces into which `n` elements are cut for `w` ranks.
pub open spec fn piece_len(n: nat, w: nat) -> nat {
    if n % w == 0 {
        n / w
    } else {
        n / w + 1
    }
}

/// The sum of element `j` over all ranks: it starts at the rank whose piece the element is in
/// and goes once around.
pub open spec fn ring_sum<T: Scalar>(grads: Seq<Seq<T>>, j: int) -> T {
    partial(
        grads,
        j / piece_len(grads[0].len(), grads.len()) as int,
        (grads.len() - 1) as nat,
        j,
    )
}

/// The values of a list of gradients.
pub open spec fn values<T>(grads: Seq<Vec<T>>) -> Seq<Seq<T>> {
    grads.map_values(|g: Vec<T>| g@)
}

/// Whether all gradients have `n` elements.
pub open spec fn all_of_len<T>(grads: Seq<Seq<T>>, n: nat) -> bool {
    forall|x: int| 0 <= x < grads.len() ==> (#[trigger] grads[x]).len() == n
}

/// The rank before rank `x`.
spec fn before(x: int, w: int) -> int {
    if x == 0 {
        w - 1
    } else {
        x - 1
    }
}

/// The state of element `j` at rank `x` while sums are formed: `s` rounds are over, and in the
/// next the ranks below `r` have sent.
spec fn forming<T: Scalar>(
    start: Seq<Seq<T>>,
    now: Seq<Seq<T>>,
    piece: int,
    s: int,
    r: int,
    x: int,
    j: int,
) -> bool {
    let w = start.len() as int;
    let c = j / piece;
    let d = distance(x, c, w);
    now[x][j] == if d <= s || (d == s + 1 && before(x, w) < r) {
        partial(start, c, d as nat, j)
    } else {
        start[x][j]
    }
}

/// The state of element `j` at rank `x` while sums are handed on.
spec fn handing<T: Scalar>(
    start: Seq<Seq<T>>,
    now: Seq<Seq<T>>,
    piece: int,
    s: int,
    r: int,
    x: int,
    j: int,
) -> bool {
    let w = start.len() as int;
    let c = j / piece;
    let d = distance(x, c, w);
    now[x][j] == if d == w - 1 || d < s || (d == s && before(x, w) < r) {
        partial(start, c, (w - 1) as nat, j)
    } else {
        partial(start, c, d as nat, j)
    }
}

/// An element lies in piece `c` exactly if it lies between the piece's ends.
proof fn lemma_piece(j: int, c: int, piece: int)
    requires
        0 <= j,
        0 <= c,
        piece > 0,
    ensures
        j / piece == c <==> c * piece <= j < c * piece + piece,
{
    if c * piece <= j < c * piece + piece {
        vstd::arithmetic::div_mod::lemma_fundamental_div_mod_converse(j, piece, c, j - c * piece);
    }
    if j / piece == c {
        vstd::arithmetic::div_mod::lemma_fundamental_div_mod(j, piece);
        assert(piece * c == c * piece) by (nonlinear_arith);
    }
}

/// There are no more pieces than ranks, and the places of their ends can be counted.
proof fn lemma_pieces(n: int, w: int, piece: int)
    requires
        0 < n,
        0 < w,
        piece == piece_len(n as nat, w as nat),
    ensures
        piece > 0,
        w * piece < n + w,
        forall|j: int| 0 <= j < n ==> 0 <= #[trigger] (j / piece) < w,
{
    vstd::arithmetic::div_mod::lemma_fundamental_div_mod(n, w);
    let q = n / w;
    let r = n % w;
    assert(q >= 0) by (nonlinear_arith)
        requires
            n == w * q + r,
            0 <= r < w,
            0 < n,
            0 < w,
    ;
    assert(piece > 0) by (nonlinear_arith)
        requires
            n == w * q + r,
            0 <= r < w,
            0 < n,
            q >= 0,
            piece == (if r == 0 {
                q
            } else {
                q + 1
            }),
    ;
    assert(n <= w * piece < n + w) by (nonlinear_arith)
        requires
            n == w * q + r,
            0 <= r < w,
            piece == (if r == 0 {
                q
            } else {
                q + 1
            }),
    ;
    assert forall|j: int| 0 <= j < n implies 0 <= #[trigger] (j / piece) < w by {
        vstd::arithmetic::div_mod::lemma_fundamental_div_mod(j, piece);
        let c = j / piece;
        let d = j % piece;
        assert(0 <= c < w) by (nonlinear_arith)
            requires
                j == piece * c + d,
                0 <= d < piece,
                0 <= j < w * piece,
                piece > 0,
        ;
    }
}

/// One rank adds what it sent to the next rank's piece.
fn send_sum<T: Scalar>(
    local: &mut Vec<Vec<T>>,
    rank: usize,
    next: usize,
    first: usize,
    end: usize,
)
    requires
        rank < old(local)@.len(),
        next < old(local)@.len(),
        rank != next,
        first <= end <= old(local)@[rank as int]@.len(),
        end <= old(local)@[next as int]@.len(),
    ensures
        final(local)@.len() == old(local)@.len(),
        forall|x: int|
            0 <= x < old(local)@.len() ==> (#[trigger] final(local)@[x])@.len() == old(
                local,
            )@[x]@.len(),
        forall|x: int, j: int|
            0 <= x < old(local)@.len() && 0 <= j < old(local)@[x]@.len()
                ==> #[trigger] final(local)@[x]@[j] == if x == next && first <= j < end {
                old(local)@[next as int]@[j].sum(old(local)@[rank as int]@[j])
            } else {
                old(local)@[x]@[j]
            },
{
    let mut j: usize = first;
    while j < end
        invariant
            first <= j <= end,
            rank < old(local)@.len(),
            next < old(local)@.len(),
            rank != next,
            end <= old(local)@[rank as int]@.len(),
            end <= old(local)@[next as int]@.len(),
            local@.len() == old(local)@.len(),
            forall|x: int|
                0 <= x < old(local)@.len() ==> (#[trigger] local@[x])@.len() == old(
                    local,
                )@[x]@.len(),
            forall|x: int, i: int|
                0 <= x < old(local)@.len() && 0 <= i < old(local)@[x]@.len()
                    ==> #[trigger] local@[x]@[i] == if x == next && first <= i < j {
                    old(local)@[next as int]@[i].sum(old(local)@[rank as int]@[i])
                } else {
                    old(local)@[x]@[i]
                },
        decreases end - j,
    {
        assert(local@[rank as int]@.len() == old(local)@[rank as int]@.len());
        assert(local@[next as int]@.len() == old(local)@[next as int]@.len());
        let sent: T = local[rank][j];
        let total: T = local[next][j].plus(sent);
        local[next][j] = total;
        j = j + 1;
    }
}

/// One rank hands its piece to the next.
fn send_copy<T: Scalar>(
    local: &mut Vec<Vec<T>>,
    rank: usize,
    next: usize,
    first: usize,
    end: usize,
)
    requires
        rank < old(local)@.len(),
        next < old(local)@.len(),
        rank != next,
        first <= end <= old(local)@[rank as int]@.len(),
        end <= old(local)@[next as int]@.len(),
    ensures
        final(local)@.len() == old(local)@.len(),
        forall|x: int|
            0 <= x < old(local)@.len() ==> (#[trigger] final(local)@[x])@.len() == old(
                local,
            )@[x]@.len(),
        forall|x: int, j: int|
            0 <= x < old(local)@.len() && 0 <= j < old(local)@[x]@.len()
                ==> #[trigger] final(local)@[x]@[j] == if x == next && first <= j < end {
                old(local)@[rank as int]@[j]
            } else {
                old(local)@[x]@[j]
            },
{
    let mut j: usize = first;
    while j < end
        invariant
            first <= j <= end,
            rank < old(local)@.len(),
            next < old(local)@.len(),
            rank != next,
            end <= old(local)@[rank as int]@.len(),
            end <= old(local)@[next as int]@.len(),
            local@.len() == old(local)@.len(),
            forall|x: int|
                0 <= x < old(local)@.len() ==> (#[trigger] local@[x])@.len() == old(
                    local,
                )@[x]@.len(),
            forall|x: int, i: int|
                0 <= x < old(local)@.len() && 0 <= i < old(local)@[x]@.len()
                    ==> #[trigger] local@[x]@[i] == if x == next && first <= i < j {
                    old(local)@[rank as int]@[i]
                } else {
                    old(local)@[x]@[i]
                },
        decreases end - j,
    {
        assert(local@[rank as int]@.len() == old(local)@[rank as int]@.len());
        assert(local@[next as int]@.len() == old(local)@[next as int]@.len());
        let sent: T = local[rank][j];
        local[next][j] = sent;
        j = j + 1;
    }
}

/// Whether all elements are in the state that `forming` says.
spec fn all_forming<T: Scalar>(
    start: Seq<Seq<T>>,
    now: Seq<Seq<T>>,
    piece: int,
    s: int,
    r: int,
) -> bool {
    &&& now.len() == start.len()
    &&& all_of_len(now, start[0].len())
    &&& forall|x: int, j: int|
        0 <= x < start.len() && 0 <= j < start[0].len() ==> #[trigger] forming(
            start,
            now,
            piece,
            s,
            r,
            x,
            j,
        )
}

/// Whether all elements are in the state that `handing` says.
spec fn all_handing<T: Scalar>(
    start: Seq<Seq<T>>,
    now: Seq<Seq<T>>,
    piece: int,
    s: int,
    r: int,
) -> bool {
    &&& now.len() == start.len()
    &&& all_of_len(now, start[0].len())
    &&& forall|x: int, j: int|
        0 <= x < start.len() && 0 <= j < start[0].len() ==> #[trigger] handing(
            start,
            now,
            piece,
            s,
            r,
            x,
            j,
        )
}

/// Whether `now` is `was` but for piece `c` at rank `next`, where it is what `piece_value`
/// says.
spec fn differs_in_piece<T>(
    was: Seq<Seq<T>>,
    now: Seq<Seq<T>>,
    piece: int,
    c: int,
    next: int,
    piece_value: spec_fn(int) -> T,
) -> bool {
    &&& now.len() == was.len()
    &&& all_of_len(now, was[0].len())
    &&& forall|x: int, j: int|
        0 <= x < was.len() && 0 <= j < was[0].len() ==> #[trigger] now[x][j] == if x == next && j
            / piece == c {
            piece_value(j)
        } else {
            was[x][j]
        }
}

/// One more rank has sent its sum.
proof fn lemma_formed<T: Scalar>(
    start: Seq<Seq<T>>,
    was: Seq<Seq<T>>,
    now: Seq<Seq<T>>,
    piece: int,
    s: int,
    r: int,
    c: int,
    next: int,
)
    requires
        start.len() >= 2,
        start[0].len() > 0,
        piece == piece_len(start[0].len(), start.len()),
        all_forming(start, was, piece, s, r),
        0 <= s < start.len() - 1,
        0 <= r < start.len(),
        0 <= c < start.len(),
        distance(r, c, start.len() as int) == s,
        next == rank_after(r, 1, start.len() as int),
        differs_in_piece(was, now, piece, c, next, |j: int| was[next][j].sum(was[r][j])),
    ensures
        all_forming(start, now, piece, s, r + 1),
{
    let w = start.len() as int;
    let n = start[0].len() as int;
    lemma_pieces(n, w, piece);
    assert forall|x: int, j: int| 0 <= x < w && 0 <= j < n implies #[trigger] forming(
        start,
        now,
        piece,
        s,
        r + 1,
        x,
        j,
    ) by {
        let e = j / piece;
        assert(forming(start, was, piece, s, r, x, j));
        assert(now[x][j] == if x == next && e == c {
            was[next][j].sum(was[r][j])
        } else {
            was[x][j]
        });
        if x == next && e == c {
            assert(forming(start, was, piece, s, r, r, j));
            assert(forming(start, was, piece, s, r, next, j));
            assert(distance(next, c, w) == s + 1);
            assert(rank_after(c, s + 1, w) == next);
            assert(partial(start, c, (s + 1) as nat, j) == start[next][j].sum(
                partial(start, c, s as nat, j),
            ));
        }
    }
}

/// One more rank has handed a sum on.
proof fn lemma_handed<T: Scalar>(
    start: Seq<Seq<T>>,
    was: Seq<Seq<T>>,
    now: Seq<Seq<T>>,
    piece: int,
    s: int,
    r: int,
    c: int,
    next: int,
)
    requires
        start.len() >= 2,
        start[0].len() > 0,
        piece == piece_len(start[0].len(), start.len()),
        all_handing(start, was, piece, s, r),
        0 <= s < start.len() - 1,
        0 <= r < start.len(),
        0 <= c < start.len(),
        distance(r, c, start.len() as int) == (if s == 0 {
            start.len() - 1
        } else {
            s - 1
        }),
        next == rank_after(r, 1, start.len() as int),
        differs_in_piece(was, now, piece, c, next, |j: int| was[r][j]),
    ensures
        all_handing(start, now, piece, s, r + 1),
{
    let w = start.len() as int;
    let n = start[0].len() as int;
    lemma_pieces(n, w, piece);
    assert forall|x: int, j: int| 0 <= x < w && 0 <= j < n implies #[trigger] handing(
        start,
        now,
        piece,
        s,
        r + 1,
        x,
        j,
    ) by {
        let e = j / piece;
        assert(handing(start, was, piece, s, r, x, j));
        assert(now[x][j] == if x == next && e == c {
            was[r][j]
        } else {
            was[x][j]
        });
        if x == next && e == c {
            assert(handing(start, was, piece, s, r, r, j));
            assert(distance(next, c, w) == s);
        }
    }
}

/// The first and the last element of a piece.
fn piece_range(c: usize, piece: usize, n: usize, w: usize) -> (range: (usize, usize))
    requires
        c < w,
        n > 0,
        piece == piece_len(n as nat, w as nat),
        n + w <= usize::MAX,
    ensures
        range.0 <= range.1 <= n,
        forall|j: int|
            0 <= j < n ==> (range.0 <= j < range.1 <==> #[trigger] (j / piece as int) == c),
{
    proof {
        lemma_pieces(n as int, w as int, piece as int);
        assert(0 <= c * piece && c * piece + piece <= w * piece) by (nonlinear_arith)
            requires
                0 <= c < w,
                piece > 0,
        ;
        assert forall|j: int| 0 <= j < n implies (c * piece <= j < c * piece + piece
            <==> #[trigger] (j / piece as int) == c) by {
            lemma_piece(j, c as int, piece as int);
        }
    }
    let first: usize = c * piece;
    if first >= n {
        return (n, n);
    }
    let end: usize = if first + piece < n {
        first + piece
    } else {
        n
    };
    (first, end)
}

/// Sums the gradients of all ranks around a ring: first every rank adds its values to the
/// pieces that come by, then the finished pieces go around once more. In the end every rank
/// holds the same sums.
pub fn ring_allreduce<T: Scalar>(local_grads: &mut Vec<Vec<T>>)
    requires
        old(local_grads)@.len() > 1 ==> {
            &&& all_of_len(values(old(local_grads)@), old(local_grads)@[0]@.len())
            &&& old(local_grads)@[0]@.len() + old(local_grads)@.len() <= usize::MAX
        },
    ensures
        final(local_grads)@.len() == old(local_grads)@.len(),
        forall|x: int|
            0 <= x < old(local_grads)@.len() ==> (#[trigger] final(local_grads)@[x])@.len() == old(
                local_grads,
            )@[x]@.len(),
        forall|x: int, j: int|
            0 <= x < old(local_grads)@.len() && 0 <= j < old(local_grads)@[0]@.len()
                ==> #[trigger] final(local_grads)@[x]@[j] == ring_sum(
                values(old(local_grads)@),
                j,
            ),
{
    let w: usize = local_grads.len();
    let ghost start = values(local_grads@);
    if w == 0 {
        return;
    }
    let n: usize = local_grads[0].len();
    if n == 0 {
        assert(forall|x: int| 0 <= x < start.len() ==> (#[trigger] start[x]).len() == 0);
        assert(forall|x: int| 0 <= x < start.len() ==> start[x] == (#[trigger] local_grads@[x])@);
        return;
    }
    if w == 1 {
        proof {
            assert forall|j: int| 0 <= j < n implies #[trigger] local_grads@[0]@[j] == ring_sum(
                start,
                j,
            ) by {
                lemma_pieces(n as int, 1, piece_len(n as nat, 1) as int);
            }
        }
        return;
    }
    let piece: usize = if n % w == 0 {
        n / w
    } else {
        n / w + 1
    };
    proof {
        lemma_pieces(n as int, w as int, piece as int);
        assert forall|x: int, j: int| 0 <= x < w && 0 <= j < n implies #[trigger] forming(
            start,
            start,
            piece as int,
            0,
            0,
            x,
            j,
        ) by {
            let c = j / piece as int;
            assert(0 <= c < w);
        }
    }
    let mut s: usize = 0;
    while s < w - 1
        invariant
            2 <= w == start.len(),
            0 < n == start[0].len(),
            n + w <= usize::MAX,
            piece == piece_len(n as nat, w as nat),
            s <= w - 1,
            all_forming(start, values(local_grads@), piece as int, s as int, 0),
        decreases w - s,
    {
        let mut rank: usize = 0;
        while rank < w
            invariant
                2 <= w == start.len(),
                0 < n == start[0].len(),
                n + w <= usize::MAX,
                piece == piece_len(n as nat, w as nat),
                s < w - 1,
                rank <= w,
                all_forming(start, values(local_grads@), piece as int, s as int, rank as int),
            decreases w - rank,
        {
            let c: usize = if rank >= s {
                rank - s
            } else {
                rank + (w - s)
            };
            let next: usize = if rank + 1 < w {
                rank + 1
            } else {
                0
            };
            let (first, end) = piece_range(c, piece, n, w);
            let ghost was = values(local_grads@);
            assert(was[rank as int].len() == n && was[next as int].len() == n);
            send_sum(local_grads, rank, next, first, end);
            proof {
                let now = values(local_grads@);
                assert forall|x: int| 0 <= x < now.len() implies (#[trigger] now[x]).len()
                    == was[0].len() by {
                    assert(now[x] == local_grads@[x]@);
                    assert(was[x].len() == n);
                }
                assert forall|x: int, j: int|
                    0 <= x < was.len() && 0 <= j < was[0].len() implies #[trigger] now[x][j] == if x
                    == next && j / piece as int == c {
                    was[next as int][j].sum(was[rank as int][j])
                } else {
                    was[x][j]
                } by {
                    assert(was[x].len() == n);
                    assert(local_grads@[x]@[j] == now[x][j]);
                }
                lemma_formed(
                    start,
                    was,
                    now,
                    piece as int,
                    s as int,
                    rank as int,
                    c as int,
                    next as int,
                );
            }
            rank = rank + 1;
        }
        proof {
            let now = values(local_grads@);
            assert forall|x: int, j: int| 0 <= x < w && 0 <= j < n implies #[trigger] forming(
                start,
                now,
                piece as int,
                s + 1,
                0,
                x,
                j,
            ) by {
                assert(forming(start, now, piece as int, s as int, w as int, x, j));
            }
        }
        s = s + 1;
    }
    proof {
        let now = values(local_grads@);
        lemma_pieces(n as int, w as int, piece as int);
        assert forall|x: int, j: int| 0 <= x < w && 0 <= j < n implies #[trigger] handing(
            start,
            now,
            piece as int,
            0,
            0,
            x,
            j,
        ) by {
            assert(forming(start, now, piece as int, w - 1, 0, x, j));
            let c = j / piece as int;
            assert(0 <= c < w);
        }
    }
    let mut s: usize = 0;
    while s < w - 1
        invariant
            2 <= w == start.len(),
            0 < n == start[0].len(),
            n + w <= usize::MAX,
            piece == piece_len(n as nat, w as nat),
            s <= w - 1,
            all_handing(start, values(local_grads@), piece as int, s as int, 0),
        decreases w - s,
    {
        let mut rank: usize = 0;
        while rank < w
            invariant
                2 <= w == start.len(),
                0 < n == start[0].len(),
                n + w <= usize::MAX,
                piece == piece_len(n as nat, w as nat),
                s < w - 1,
                rank <= w,
                all_handing(start, values(local_grads@), piece as int, s as int, rank as int),
            decreases w - rank,
        {
            let next: usize = if rank + 1 < w {
                rank + 1
            } else {
                0
            };
            let c: usize = if next >= s {
                next - s
            } else {
                next + (w - s)
            };
            let (first, end) = piece_range(c, piece, n, w);
            let ghost was = values(local_grads@);
            assert(was[rank as int].len() == n && was[next as int].len() == n);
            send_copy(local_grads, rank, next, first, end);
            proof {
                let now = values(local_grads@);
                assert forall|x: int| 0 <= x < now.len() implies (#[trigger] now[x]).len()
                    == was[0].len() by {
                    assert(now[x] == local_grads@[x]@);
                    assert(was[x].len() == n);
                }
                assert forall|x: int, j: int|
                    0 <= x < was.len() && 0 <= j < was[0].len() implies #[trigger] now[x][j] == if x
                    == next && j / piece as int == c {
                    was[rank as int][j]
                } else {
                    was[x][j]
                } by {
                    assert(was[x].len() == n);
                    assert(local_grads@[x]@[j] == now[x][j]);
                }
                lemma_handed(
                    start,
                    was,
                    now,
                    piece as int,
                    s as int,
                    rank as int,
                    c as int,
                    next as int,
                );
            }
            rank = rank + 1;
        }
        proof {
            let now = values(local_grads@);
            assert forall|x: int, j: int| 0 <= x < w && 0 <= j < n implies #[trigger] handing(
                start,
                now,
                piece as int,
                s + 1,
                0,
                x,
                j,
            ) by {
                assert(handing(start, now, piece as int, s as int, w as int, x, j));
            }
        }
        s = s + 1;
    }
    proof {
        let now = values(local_grads@);
        lemma_pieces(n as int, w as int, piece as int);
        assert forall|x: int, j: int| 0 <= x < w && 0 <= j < n implies #[trigger] local_grads@[x]@[j]
            == ring_sum(start, j) by {
            assert(handing(start, now, piece as int, w - 1, 0, x, j));
            let c = j / piece as int;
            assert(0 <= c < w);
            assert(now[x] == local_grads@[x]@);
        }
        assert forall|x: int| 0 <= x < w implies (#[trigger] local_grads@[x])@.len() == old(
            local_grads,
        )@[x]@.len() by {
            assert(now[x].len() == n);
            assert(start[x].len() == n);
        }
    }
}

/// The sum of element `j` over the ranks from `lo` to before `hi`.
pub open spec fn span<T: Scalar>(grads: Seq<Seq<T>>, lo: int, hi: int, j: int) -> T
    decreases hi - lo,
{
    if hi <= lo + 1 {
        grads[lo][j]
    } else {
        grads[hi - 1][j].sum(span(grads, lo, hi - 1, j))
    }
}

/// Whether sums do not depend on how they are grouped.
pub open spec fn is_associative<T: Scalar>() -> bool {
    forall|a: T, b: T, c: T| #[trigger] a.sum(b.sum(c)) == a.sum(b).sum(c)
}

/// Whether sums do not depend on the order.
pub open spec fn is_commutative<T: Scalar>() -> bool {
    forall|a: T, b: T| #[trigger] a.sum(b) == b.sum(a)
}

/// The way around the ring as far as the last rank.
proof fn lemma_first_part<T: Scalar>(grads: Seq<Seq<T>>, c: int, k: nat, j: int)
    requires
        0 <= c,
        c + k < grads.len(),
    ensures
        partial(grads, c, k, j) == span(grads, c, c + k + 1, j),
    decreases k,
{
    if k > 0 {
        lemma_first_part(grads, c, (k - 1) as nat, j);
    }
}

/// The way around the ring beyond the last rank.
proof fn lemma_second_part<T: Scalar>(grads: Seq<Seq<T>>, c: int, m: nat, j: int)
    requires
        0 < c < grads.len(),
        m < c,
        is_associative::<T>(),
    ensures
        partial(grads, c, (grads.len() - c + m) as nat, j) == span(grads, 0, m as int + 1, j).sum(
            span(grads, c, grads.len() as int, j),
        ),
    decreases m,
{
    let w = grads.len() as int;
    let k = (w - c + m) as nat;
    let rest = span(grads, c, w, j);
    assert(rank_after(c, k as int, w) == m);
    if m == 0 {
        lemma_first_part(grads, c, (w - 1 - c) as nat, j);
    } else {
        lemma_second_part(grads, c, (m - 1) as nat, j);
        let own = grads[m as int][j];
        let lower = span(grads, 0, m as int, j);
        assert(own.sum(lower.sum(rest)) == own.sum(lower).sum(rest));
    }
}

/// A sum over ranks can be cut in two.
proof fn lemma_span_splits<T: Scalar>(grads: Seq<Seq<T>>, c: int, hi: int, j: int)
    requires
        0 < c < hi,
        is_associative::<T>(),
    ensures
        span(grads, 0, hi, j) == span(grads, c, hi, j).sum(span(grads, 0, c, j)),
    decreases hi,
{
    if hi > c + 1 {
        lemma_span_splits(grads, c, hi - 1, j);
        let own = grads[hi - 1][j];
        let upper = span(grads, c, hi - 1, j);
        let lower = span(grads, 0, c, j);
        assert(own.sum(upper.sum(lower)) == own.sum(upper).sum(lower));
    }
}

/// Where sums depend neither on the order nor on the grouping, going around the ring gives the
/// sum over all ranks, wherever the way starts.
pub proof fn law_ring_sum_is_the_sum<T: Scalar>(grads: Seq<Seq<T>>, j: int)
    requires
        grads.len() > 0,
        0 <= j < grads[0].len(),
        is_associative::<T>(),
        is_commutative::<T>(),
    ensures
        ring_sum(grads, j) == span(grads, 0, grads.len() as int, j),
{
    let w = grads.len() as int;
    let piece = piece_len(grads[0].len(), grads.len()) as int;
    lemma_pieces(grads[0].len() as int, w, piece);
    let c = j / piece;
    assert(0 <= c < w);
    if c == 0 {
        lemma_first_part(grads, 0, (w - 1) as nat, j);
    } else {
        lemma_second_part(grads, c, (c - 1) as nat, j);
        lemma_span_splits(grads, c, w, j);
        let lower = span(grads, 0, c, j);
        let upper = span(grads, c, w, j);
        assert(lower.sum(upper) == upper.sum(lower));
    }
}

/// Wrapping sums of numbers depend neither on the order nor on the grouping.
pub proof fn law_wrapping_sums_commute()
    ensures
        is_associative::<u64>(),
        is_commutative::<u64>(),
{
    assert forall|a: u64, b: u64, c: u64| #[trigger] a.sum(b.sum(c)) == a.sum(b).sum(c) by {
        vstd::arithmetic::div_mod::lemma_add_mod_noop(
            a as int,
            (b + c) as int,
            0x1_0000_0000_0000_0000,
        );
        vstd::arithmetic::div_mod::lemma_add_mod_noop(
            (a + b) as int,
            c as int,
            0x1_0000_0000_0000_0000,
        );
    }
}

} // verus!
