//! Enumerating the surface of a cubic region, and diffing two cubic
//! regions of equal radius, in time proportional to the boundary swept.

use vstd::prelude::*;
use crate::cell::{Cell, in_range, in_region, on_shell, region_fits};

verus! {

/// Number of integers in the inclusive range `[lo, hi]`.
pub open spec fn range_len(lo: int, hi: int) -> int {
    if lo <= hi {
        hi - lo + 1
    } else {
        0
    }
}

/// `c` lies in the axis-aligned box with the given inclusive bounds.
pub open spec fn in_box(x0: int, x1: int, y0: int, y1: int, z0: int, z1: int, c: Cell) -> bool {
    x0 <= c.x <= x1 && y0 <= c.y <= y1 && z0 <= c.z <= z1
}

/// Number of cells in the box with the given inclusive bounds.
pub open spec fn box_len(x0: int, x1: int, y0: int, y1: int, z0: int, z1: int) -> int {
    range_len(x0, x1) * range_len(y0, y1) * range_len(z0, z1)
}

/// Appends the cells `(x, y, z)` for `z` in `[z0, z1]`, in increasing order
/// of `z`. Appends nothing when the range is empty.
fn push_col(out: &mut Vec<Cell>, x: i64, y: i64, z0: i64, z1: i64)
    requires
        i32::MIN <= x <= i32::MAX,
        i32::MIN <= y <= i32::MAX,
        z0 <= z1 ==> i32::MIN <= z0 && z1 <= i32::MAX,
    ensures
        final(out)@.len() == old(out)@.len() + range_len(z0 as int, z1 as int),
        forall|i: int| 0 <= i < old(out)@.len() ==> final(out)@[i] == old(out)@[i],
        forall|k: int|
            0 <= k < range_len(z0 as int, z1 as int) ==> {
                let c = #[trigger] final(out)@[old(out)@.len() + k];
                c.x == x && c.y == y && c.z == z0 + k
            },
{
    let mut z: i64 = z0;
    while z <= z1
        invariant
            i32::MIN <= x <= i32::MAX,
            i32::MIN <= y <= i32::MAX,
            z0 <= z1 ==> i32::MIN <= z0 && z1 <= i32::MAX,
            z0 <= z,
            z <= z1 + 1 || z == z0,
            out@.len() == old(out)@.len() + (z - z0),
            forall|i: int| 0 <= i < old(out)@.len() ==> out@[i] == old(out)@[i],
            forall|k: int|
                0 <= k < z - z0 ==> {
                    let c = #[trigger] out@[old(out)@.len() + k];
                    c.x == x && c.y == y && c.z == z0 + k
                },
        decreases z1 - z + 1,
    {
        out.push(Cell { x: x as i32, y: y as i32, z: z as i32 });
        z = z + 1;
    }
}

/// Appends the cells `(x, y, z)` for `y` in `[y0, y1]` and `z` in `[z0, z1]`.
fn push_rect(out: &mut Vec<Cell>, x: i64, y0: i64, y1: i64, z0: i64, z1: i64)
    requires
        i32::MIN <= x <= i32::MAX,
        y0 <= y1 ==> i32::MIN <= y0 && y1 <= i32::MAX,
        z0 <= z1 ==> i32::MIN <= z0 && z1 <= i32::MAX,
    ensures
        final(out)@.len() == old(out)@.len() + range_len(y0 as int, y1 as int) * range_len(
            z0 as int,
            z1 as int,
        ),
        forall|i: int| 0 <= i < old(out)@.len() ==> final(out)@[i] == old(out)@[i],
        forall|i: int|
            old(out)@.len() <= i < final(out)@.len() ==> in_box(
                x as int,
                x as int,
                y0 as int,
                y1 as int,
                z0 as int,
                z1 as int,
                #[trigger] final(out)@[i],
            ),
        forall|c: Cell|
            #[trigger] in_box(x as int, x as int, y0 as int, y1 as int, z0 as int, z1 as int, c)
                ==> exists|i: int| old(out)@.len() <= i < final(out)@.len() && final(out)@[i] == c,
        forall|i: int, j: int|
            old(out)@.len() <= i < j < final(out)@.len() ==> final(out)@[i] != final(out)@[j],
{
    let ghost zl = range_len(z0 as int, z1 as int);
    let mut y: i64 = y0;
    while y <= y1
        invariant
            i32::MIN <= x <= i32::MAX,
            y0 <= y1 ==> i32::MIN <= y0 && y1 <= i32::MAX,
            z0 <= z1 ==> i32::MIN <= z0 && z1 <= i32::MAX,
            zl == range_len(z0 as int, z1 as int),
            y0 <= y,
            y <= y1 + 1 || y == y0,
            out@.len() == old(out)@.len() + (y - y0) * zl,
            forall|i: int| 0 <= i < old(out)@.len() ==> out@[i] == old(out)@[i],
            forall|i: int|
                old(out)@.len() <= i < out@.len() ==> {
                    let c = #[trigger] out@[i];
                    c.x == x && y0 <= c.y < y && z0 <= c.z <= z1
                },
            forall|c: Cell|
                #[trigger] in_box(x as int, x as int, y0 as int, y - 1, z0 as int, z1 as int, c)
                    ==> exists|i: int| old(out)@.len() <= i < out@.len() && (#[trigger] out@[i])
                    == c,
            forall|i: int, j: int|
                old(out)@.len() <= i < j < out@.len() ==> out@[i] != out@[j],
        decreases y1 - y + 1,
    {
        let ghost pre = out@;
        push_col(out, x, y, z0, z1);
        proof {
            assert((y + 1 - y0) * zl == (y - y0) * zl + zl) by (nonlinear_arith);
            assert forall|i: int| pre.len() <= i < out@.len() implies (#[trigger] out@[i]).x == x
                && out@[i].y == y && z0 <= out@[i].z <= z1 by {
                let k = i - pre.len();
                assert(out@[pre.len() + k].x == x);
            }
            assert forall|c: Cell|
                #[trigger] in_box(x as int, x as int, y0 as int, y as int, z0 as int, z1 as int, c)
                    implies exists|i: int|
                    old(out)@.len() <= i < out@.len() && (#[trigger] out@[i]) == c by {
                if c.y < y {
                    assert(in_box(x as int, x as int, y0 as int, y - 1, z0 as int, z1 as int, c));
                    let i = choose|i: int|
                        old(out)@.len() <= i < pre.len() && (#[trigger] pre[i]) == c;
                    assert(out@[i] == c);
                } else {
                    let k = c.z - z0;
                    assert(out@[pre.len() + k] == c);
                }
            }
            assert forall|i: int, j: int|
                old(out)@.len() <= i < j < out@.len() implies out@[i] != out@[j] by {
                if j < pre.len() {
                    assert(out@[i] == pre[i] && out@[j] == pre[j]);
                } else if i < pre.len() {
                    assert(out@[i] == pre[i]);
                    assert(out@[pre.len() + (j - pre.len())].y == y);
                } else {
                    assert(out@[pre.len() + (i - pre.len())].z == z0 + (i - pre.len()));
                    assert(out@[pre.len() + (j - pre.len())].z == z0 + (j - pre.len()));
                }
            }
        }
        y = y + 1;
    }
    proof {
        assert forall|c: Cell|
            #[trigger] in_box(x as int, x as int, y0 as int, y1 as int, z0 as int, z1 as int, c)
                implies exists|i: int| old(out)@.len() <= i < out@.len() && out@[i] == c by {
            assert(in_box(x as int, x as int, y0 as int, y - 1, z0 as int, z1 as int, c));
            let i = choose|i: int| old(out)@.len() <= i < out@.len() && out@[i] == c;
            assert(out@[i] == c);
        }
    }
}

/// Appends the cells of the box with the given inclusive bounds, with no
/// duplicates among them; empty ranges contribute nothing.
fn push_box(out: &mut Vec<Cell>, x0: i64, x1: i64, y0: i64, y1: i64, z0: i64, z1: i64)
    requires
        x0 <= x1 ==> i32::MIN <= x0 && x1 <= i32::MAX,
        y0 <= y1 ==> i32::MIN <= y0 && y1 <= i32::MAX,
        z0 <= z1 ==> i32::MIN <= z0 && z1 <= i32::MAX,
    ensures
        final(out)@.len() == old(out)@.len() + box_len(
            x0 as int,
            x1 as int,
            y0 as int,
            y1 as int,
            z0 as int,
            z1 as int,
        ),
        forall|i: int| 0 <= i < old(out)@.len() ==> final(out)@[i] == old(out)@[i],
        forall|i: int|
            old(out)@.len() <= i < final(out)@.len() ==> in_box(
                x0 as int,
                x1 as int,
                y0 as int,
                y1 as int,
                z0 as int,
                z1 as int,
                #[trigger] final(out)@[i],
            ),
        forall|c: Cell|
            #[trigger] in_box(x0 as int, x1 as int, y0 as int, y1 as int, z0 as int, z1 as int, c)
                ==> exists|i: int| old(out)@.len() <= i < final(out)@.len() && final(out)@[i] == c,
        forall|i: int, j: int|
            old(out)@.len() <= i < j < final(out)@.len() ==> final(out)@[i] != final(out)@[j],
{
    let ghost ry = range_len(y0 as int, y1 as int);
    let ghost rz = range_len(z0 as int, z1 as int);
    let ghost yzl = ry * rz;
    let mut x: i64 = x0;
    while x <= x1
        invariant
            x0 <= x1 ==> i32::MIN <= x0 && x1 <= i32::MAX,
            y0 <= y1 ==> i32::MIN <= y0 && y1 <= i32::MAX,
            z0 <= z1 ==> i32::MIN <= z0 && z1 <= i32::MAX,
            ry == range_len(y0 as int, y1 as int),
            rz == range_len(z0 as int, z1 as int),
            yzl == ry * rz,
            x0 <= x,
            x <= x1 + 1 || x == x0,
            out@.len() == old(out)@.len() + (x - x0) * yzl,
            forall|i: int| 0 <= i < old(out)@.len() ==> out@[i] == old(out)@[i],
            forall|i: int|
                old(out)@.len() <= i < out@.len() ==> {
                    let c = #[trigger] out@[i];
                    x0 <= c.x < x && y0 <= c.y <= y1 && z0 <= c.z <= z1
                },
            forall|c: Cell|
                #[trigger] in_box(x0 as int, x - 1, y0 as int, y1 as int, z0 as int, z1 as int, c)
                    ==> exists|i: int| old(out)@.len() <= i < out@.len() && (#[trigger] out@[i])
                    == c,
            forall|i: int, j: int|
                old(out)@.len() <= i < j < out@.len() ==> out@[i] != out@[j],
        decreases x1 - x + 1,
    {
        let ghost pre = out@;
        push_rect(out, x, y0, y1, z0, z1);
        proof {
            assert((x + 1 - x0) * yzl == (x - x0) * yzl + yzl) by (nonlinear_arith);
            assert forall|i: int| pre.len() <= i < out@.len() implies (#[trigger] out@[i]).x == x
                && y0 <= out@[i].y <= y1 && z0 <= out@[i].z <= z1 by {
                assert(in_box(
                    x as int,
                    x as int,
                    y0 as int,
                    y1 as int,
                    z0 as int,
                    z1 as int,
                    out@[i],
                ));
            }
            assert forall|c: Cell|
                #[trigger] in_box(x0 as int, x as int, y0 as int, y1 as int, z0 as int, z1 as int, c)
                    implies exists|i: int|
                    old(out)@.len() <= i < out@.len() && (#[trigger] out@[i]) == c by {
                if c.x < x {
                    assert(in_box(x0 as int, x - 1, y0 as int, y1 as int, z0 as int, z1 as int, c));
                    let i = choose|i: int|
                        old(out)@.len() <= i < pre.len() && (#[trigger] pre[i]) == c;
                    assert(out@[i] == c);
                } else {
                    assert(in_box(
                        x as int,
                        x as int,
                        y0 as int,
                        y1 as int,
                        z0 as int,
                        z1 as int,
                        c,
                    ));
                    let i = choose|i: int| pre.len() <= i < out@.len() && out@[i] == c;
                    assert(out@[i] == c);
                }
            }
            assert forall|i: int, j: int|
                old(out)@.len() <= i < j < out@.len() implies out@[i] != out@[j] by {
                if j < pre.len() {
                    assert(out@[i] == pre[i] && out@[j] == pre[j]);
                } else if i < pre.len() {
                    assert(out@[i] == pre[i]);
                    assert(in_box(
                        x as int,
                        x as int,
                        y0 as int,
                        y1 as int,
                        z0 as int,
                        z1 as int,
                        out@[j],
                    ));
                }
            }
        }
        x = x + 1;
    }
    proof {
        let rx = range_len(x0 as int, x1 as int);
        assert(rx * (ry * rz) == (rx * ry) * rz) by (nonlinear_arith);
        if x0 <= x1 {
            assert(out@.len() == old(out)@.len() + rx * yzl);
        } else {
            assert(rx == 0);
        }
        assert forall|c: Cell|
            #[trigger] in_box(x0 as int, x1 as int, y0 as int, y1 as int, z0 as int, z1 as int, c)
                implies exists|i: int| old(out)@.len() <= i < out@.len() && out@[i] == c by {
            assert(in_box(x0 as int, x - 1, y0 as int, y1 as int, z0 as int, z1 as int, c));
            let i = choose|i: int| old(out)@.len() <= i < out@.len() && out@[i] == c;
            assert(out@[i] == c);
        }
    }
}

/// Which of the six cube faces a shell cell is attributed to, numbered in
/// the order the faces are emitted: the two x faces claim their full extent,
/// the y faces what the x faces left, the z faces the rest.
spec fn face_of(c0: Cell, r: int, c: Cell) -> int {
    if c.x == c0.x - r {
        0
    } else if c.x == c0.x + r {
        1
    } else if c.y == c0.y - r {
        2
    } else if c.y == c0.y + r {
        3
    } else if c.z == c0.z - r {
        4
    } else {
        5
    }
}

/// Generate the set of cells corresponding to the surface of a cube of
/// voxels: exactly the cells at Chebyshev distance `radius` from `center`,
/// each exactly once. For `radius == 0` the single cell `center`.
///
/// The three face pairs are emitted with successively restricted ranges
/// (full, x interior, x and y interior) so that no cell is emitted twice.
pub fn cube_shell(center: &Cell, radius: i32) -> (shell: Vec<Cell>)
    requires
        radius >= 0,
        region_fits(*center, radius as int),
    ensures
        forall|i: int|
            0 <= i < shell@.len() ==> on_shell(*center, radius as int, #[trigger] shell@[i]),
        forall|c: Cell| #[trigger] on_shell(*center, radius as int, c) ==> shell@.contains(c),
        forall|i: int, j: int| 0 <= i < j < shell@.len() ==> shell@[i] != shell@[j],
        radius == 0 ==> shell@.len() == 1,
        radius >= 1 ==> shell@.len() == (2 * radius + 1) * (2 * radius + 1) * (2 * radius + 1) - (2
            * radius - 1) * (2 * radius - 1) * (2 * radius - 1),
{
    let mut shell: Vec<Cell> = Vec::new();
    if radius == 0 {
        shell.push(*center);
        proof {
            assert forall|c: Cell| #[trigger] on_shell(*center, radius as int, c) implies shell@
                .contains(c) by {
                assert(shell@[0] == c);
            }
        }
        return shell;
    }
    let ghost c0 = *center;
    let ghost r = radius as int;
    let cx = center.x as i64;
    let cy = center.y as i64;
    let cz = center.z as i64;
    let rad = radius as i64;

    // the -x and +x faces, with the full y and z extent
    push_box(&mut shell, cx - rad, cx - rad, cy - rad, cy + rad, cz - rad, cz + rad);
    proof {
        assert forall|i: int| 0 <= i < shell@.len() implies on_shell(c0, r, #[trigger] shell@[i])
            && 0 <= face_of(c0, r, shell@[i]) < 1 by {}
        assert forall|c: Cell|
            #[trigger] on_shell(c0, r, c) && face_of(c0, r, c) < 1 implies exists|i: int|
            0 <= i < shell@.len() && shell@[i] == c by {
            assert(in_box(cx - rad as int, cx - rad as int, cy - rad as int, cy + rad as int,
                cz - rad as int, cz + rad as int, c));
        }
    }
    let ghost p1 = shell@;
    push_box(&mut shell, cx + rad, cx + rad, cy - rad, cy + rad, cz - rad, cz + rad);
    proof {
        lemma_shell_step(p1, shell@, c0, r, 1);
        assert forall|c: Cell|
            #[trigger] on_shell(c0, r, c) && face_of(c0, r, c) < 2 implies exists|i: int|
            0 <= i < shell@.len() && shell@[i] == c by {
            if face_of(c0, r, c) == 1 {
                assert(in_box(cx + rad as int, cx + rad as int, cy - rad as int, cy + rad as int,
                    cz - rad as int, cz + rad as int, c));
                let i = choose|i: int| p1.len() <= i < shell@.len() && shell@[i] == c;
                assert(shell@[i] == c);
            } else {
                let i = choose|i: int| 0 <= i < p1.len() && p1[i] == c;
                assert(shell@[i] == c);
            }
        }
    }
    let ghost p2 = shell@;
    // the -y and +y faces, with x restricted to the open interior
    push_box(&mut shell, cx - (rad - 1), cx + (rad - 1), cy - rad, cy - rad, cz - rad, cz + rad);
    proof {
        lemma_shell_step(p2, shell@, c0, r, 2);
        assert forall|c: Cell|
            #[trigger] on_shell(c0, r, c) && face_of(c0, r, c) < 3 implies exists|i: int|
            0 <= i < shell@.len() && shell@[i] == c by {
            if face_of(c0, r, c) == 2 {
                assert(in_box(cx - (rad - 1) as int, cx + (rad - 1) as int, cy - rad as int,
                    cy - rad as int, cz - rad as int, cz + rad as int, c));
                let i = choose|i: int| p2.len() <= i < shell@.len() && shell@[i] == c;
                assert(shell@[i] == c);
            } else {
                let i = choose|i: int| 0 <= i < p2.len() && p2[i] == c;
                assert(shell@[i] == c);
            }
        }
    }
    let ghost p3 = shell@;
    push_box(&mut shell, cx - (rad - 1), cx + (rad - 1), cy + rad, cy + rad, cz - rad, cz + rad);
    proof {
        lemma_shell_step(p3, shell@, c0, r, 3);
        assert forall|c: Cell|
            #[trigger] on_shell(c0, r, c) && face_of(c0, r, c) < 4 implies exists|i: int|
            0 <= i < shell@.len() && shell@[i] == c by {
            if face_of(c0, r, c) == 3 {
                assert(in_box(cx - (rad - 1) as int, cx + (rad - 1) as int, cy + rad as int,
                    cy + rad as int, cz - rad as int, cz + rad as int, c));
                let i = choose|i: int| p3.len() <= i < shell@.len() && shell@[i] == c;
                assert(shell@[i] == c);
            } else {
                let i = choose|i: int| 0 <= i < p3.len() && p3[i] == c;
                assert(shell@[i] == c);
            }
        }
    }
    let ghost p4 = shell@;
    // the -z and +z faces, with x and y restricted to the open interior
    push_box(
        &mut shell,
        cx - (rad - 1),
        cx + (rad - 1),
        cy - (rad - 1),
        cy + (rad - 1),
        cz - rad,
        cz - rad,
    );
    proof {
        lemma_shell_step(p4, shell@, c0, r, 4);
        assert forall|c: Cell|
            #[trigger] on_shell(c0, r, c) && face_of(c0, r, c) < 5 implies exists|i: int|
            0 <= i < shell@.len() && shell@[i] == c by {
            if face_of(c0, r, c) == 4 {
                assert(in_box(cx - (rad - 1) as int, cx + (rad - 1) as int, cy - (rad - 1) as int,
                    cy + (rad - 1) as int, cz - rad as int, cz - rad as int, c));
                let i = choose|i: int| p4.len() <= i < shell@.len() && shell@[i] == c;
                assert(shell@[i] == c);
            } else {
                let i = choose|i: int| 0 <= i < p4.len() && p4[i] == c;
                assert(shell@[i] == c);
            }
        }
    }
    let ghost p5 = shell@;
    push_box(
        &mut shell,
        cx - (rad - 1),
        cx + (rad - 1),
        cy - (rad - 1),
        cy + (rad - 1),
        cz + rad,
        cz + rad,
    );
    proof {
        lemma_shell_step(p5, shell@, c0, r, 5);
        assert forall|c: Cell| #[trigger] on_shell(c0, r, c) implies shell@.contains(c) by {
            assert(0 <= face_of(c0, r, c) < 6);
            if face_of(c0, r, c) == 5 {
                assert(in_box(cx - (rad - 1) as int, cx + (rad - 1) as int, cy - (rad - 1) as int,
                    cy + (rad - 1) as int, cz + rad as int, cz + rad as int, c));
                let i = choose|i: int| p5.len() <= i < shell@.len() && shell@[i] == c;
                assert(shell@[i] == c);
            } else {
                let i = choose|i: int| 0 <= i < p5.len() && p5[i] == c;
                assert(shell@[i] == c);
            }
        }
        let w = 2 * r + 1;
        let v = 2 * r - 1;
        assert((1 * w) * w == w * w) by (nonlinear_arith);
        assert((v * 1) * w == v * w) by (nonlinear_arith);
        assert((v * v) * 1 == v * v) by (nonlinear_arith);
        assert(p1.len() == w * w);
        assert(p2.len() == p1.len() + w * w);
        assert(p3.len() == p2.len() + v * w);
        assert(p4.len() == p3.len() + v * w);
        assert(p5.len() == p4.len() + v * v);
        assert(shell@.len() == p5.len() + v * v);
        assert(2 * (w * w) + 2 * (v * w) + 2 * (v * v) == w * w * w - v * v * v)
            by (nonlinear_arith)
            requires
                w == v + 2,
        ;
        assert(shell@.len() == w * w * w - v * v * v);
    }
    shell
}

/// One emission step of `cube_shell`: the cells appended by face `f` extend
/// a prefix whose cells lie on earlier faces, keeping the whole sequence
/// on the shell, face-sorted, and duplicate-free.
proof fn lemma_shell_step(pre: Seq<Cell>, post: Seq<Cell>, c0: Cell, r: int, f: int)
    requires
        r >= 1,
        pre.len() <= post.len(),
        forall|i: int| 0 <= i < pre.len() ==> post[i] == pre[i],
        forall|i: int|
            0 <= i < pre.len() ==> on_shell(c0, r, #[trigger] pre[i]) && 0 <= face_of(
                c0,
                r,
                pre[i],
            ) < f,
        forall|i: int, j: int| 0 <= i < j < pre.len() ==> pre[i] != pre[j],
        forall|i: int, j: int| pre.len() <= i < j < post.len() ==> post[i] != post[j],
        forall|i: int|
            pre.len() <= i < post.len() ==> on_shell(c0, r, #[trigger] post[i]) && face_of(
                c0,
                r,
                post[i],
            ) == f,
    ensures
        forall|i: int|
            0 <= i < post.len() ==> on_shell(c0, r, #[trigger] post[i]) && 0 <= face_of(
                c0,
                r,
                post[i],
            ) < f + 1,
        forall|i: int, j: int| 0 <= i < j < post.len() ==> post[i] != post[j],
{
    assert forall|i: int, j: int| 0 <= i < j < post.len() implies post[i] != post[j] by {
        if j < pre.len() {
            assert(post[i] == pre[i] && post[j] == pre[j]);
        } else if i < pre.len() {
            assert(post[i] == pre[i]);
            assert(face_of(c0, r, post[i]) < f && face_of(c0, r, post[j]) == f);
        }
    }
}

/// A cell resident in both of two equal-radius regions is listed by
/// neither diff between them: `cube_diff(a, b, r)` holds only cells outside
/// the `b`-centered region, and `cube_diff(b, a, r)` only cells outside the
/// `a`-centered one, so the cells that stay resident never appear.
pub proof fn lemma_diff_spares_shared(
    a: Cell,
    b: Cell,
    r: int,
    ab: Seq<Cell>,
    ba: Seq<Cell>,
    c: Cell,
)
    requires
        forall|i: int|
            0 <= i < ab.len() ==> in_region(a, r, #[trigger] ab[i]) && !in_region(b, r, ab[i]),
        forall|i: int|
            0 <= i < ba.len() ==> in_region(b, r, #[trigger] ba[i]) && !in_region(a, r, ba[i]),
        in_region(a, r, c),
        in_region(b, r, c),
    ensures
        !ab.contains(c),
        !ba.contains(c),
{
    if ab.contains(c) {
        let i = choose|i: int| 0 <= i < ab.len() && ab[i] == c;
        assert(!in_region(b, r, ab[i]));
    }
    if ba.contains(c) {
        let i = choose|i: int| 0 <= i < ba.len() && ba[i] == c;
        assert(!in_region(a, r, ba[i]));
    }
}

/// Which axis pass of `cube_diff` a vacated cell is attributed to: the
/// first axis, in the fixed x, y, z order, on which the cell falls outside
/// the `to`-centered range. A cell vacated on several axes at once belongs
/// to the earliest.
spec fn axis_of(to: Cell, r: int, c: Cell) -> int {
    if !in_range(to.x as int, r, c.x as int) {
        0
    } else if !in_range(to.y as int, r, c.y as int) {
        1
    } else {
        2
    }
}

/// One axis pass of `cube_diff`: the cells appended by pass `f` extend a
/// prefix of cells attributed to earlier axes, keeping the whole sequence
/// inside the diff and duplicate-free.
proof fn lemma_diff_step(pre: Seq<Cell>, post: Seq<Cell>, from: Cell, to: Cell, r: int, f: int)
    requires
        pre.len() <= post.len(),
        forall|i: int| 0 <= i < pre.len() ==> post[i] == pre[i],
        forall|i: int|
            0 <= i < pre.len() ==> in_region(from, r, #[trigger] pre[i]) && !in_region(
                to,
                r,
                pre[i],
            ) && 0 <= axis_of(to, r, pre[i]) < f,
        forall|i: int, j: int| 0 <= i < j < pre.len() ==> pre[i] != pre[j],
        forall|i: int, j: int| pre.len() <= i < j < post.len() ==> post[i] != post[j],
        forall|i: int|
            pre.len() <= i < post.len() ==> in_region(from, r, #[trigger] post[i]) && !in_region(
                to,
                r,
                post[i],
            ) && axis_of(to, r, post[i]) == f,
    ensures
        forall|i: int|
            0 <= i < post.len() ==> in_region(from, r, #[trigger] post[i]) && !in_region(
                to,
                r,
                post[i],
            ) && 0 <= axis_of(to, r, post[i]) < f + 1,
        forall|i: int, j: int| 0 <= i < j < post.len() ==> post[i] != post[j],
{
    assert forall|i: int, j: int| 0 <= i < j < post.len() implies post[i] != post[j] by {
        if j < pre.len() {
            assert(post[i] == pre[i] && post[j] == pre[j]);
        } else if i < pre.len() {
            assert(post[i] == pre[i]);
            assert(axis_of(to, r, post[i]) < f && axis_of(to, r, post[j]) == f);
        }
    }
}

/// Return the cells that are present in a cube of radius `radius` centered
/// at `from`, but not in one centered at `to`, each exactly once, without
/// enumerating either cube's full volume.
///
/// The diff is decomposed by axis in the fixed x, y, z order: each pass
/// sweeps the cells vacated on its axis, with later axes still ranging over
/// the full `from` extent and earlier axes restricted to the range shared
/// between `from` and `to`, so no cell is emitted twice.
pub fn cube_diff(from: &Cell, to: &Cell, radius: i32) -> (diff: Vec<Cell>)
    requires
        radius >= 0,
        region_fits(*from, radius as int),
    ensures
        forall|i: int|
            0 <= i < diff@.len() ==> in_region(*from, radius as int, #[trigger] diff@[i])
                && !in_region(*to, radius as int, diff@[i]),
        forall|c: Cell|
            #[trigger] in_region(*from, radius as int, c) && !in_region(*to, radius as int, c)
                ==> diff@.contains(c),
        forall|i: int, j: int| 0 <= i < j < diff@.len() ==> diff@[i] != diff@[j],
        *from == *to ==> diff@.len() == 0,
{
    let mut diff: Vec<Cell> = Vec::new();
    let ghost f0 = *from;
    let ghost t0 = *to;
    let ghost r = radius as int;
    let fx = from.x as i64;
    let fy = from.y as i64;
    let fz = from.z as i64;
    let tx = to.x as i64;
    let ty = to.y as i64;
    let tz = to.z as i64;
    let rad = radius as i64;

    // x pass: the x range vacated by the move, full y and z extent of `from`
    let ax0: i64 = if fx < tx {
        fx - rad
    } else if fx - rad > tx + rad + 1 {
        fx - rad
    } else {
        tx + rad + 1
    };
    let ax1: i64 = if fx >= tx {
        fx + rad
    } else if fx + rad < tx - rad - 1 {
        fx + rad
    } else {
        tx - rad - 1
    };
    push_box(&mut diff, ax0, ax1, fy - rad, fy + rad, fz - rad, fz + rad);
    proof {
        assert forall|i: int| 0 <= i < diff@.len() implies in_region(f0, r, #[trigger] diff@[i])
            && !in_region(t0, r, diff@[i]) && 0 <= axis_of(t0, r, diff@[i]) < 1 by {}
        assert forall|c: Cell|
            #[trigger] in_region(f0, r, c) && !in_region(t0, r, c) && axis_of(t0, r, c) < 1
                implies exists|i: int| 0 <= i < diff@.len() && diff@[i] == c by {
            assert(in_box(ax0 as int, ax1 as int, (fy - rad) as int, (fy + rad) as int,
                (fz - rad) as int, (fz + rad) as int, c));
        }
    }
    let ghost p1 = diff@;

    // y pass: x restricted to the range shared by `from` and `to`
    let bx0: i64 = if fx < tx {
        tx - rad
    } else {
        fx - rad
    };
    let bx1: i64 = if fx < tx {
        fx + rad
    } else {
        tx + rad
    };
    let ay0: i64 = if fy < ty {
        fy - rad
    } else if fy - rad > ty + rad + 1 {
        fy - rad
    } else {
        ty + rad + 1
    };
    let ay1: i64 = if fy >= ty {
        fy + rad
    } else if fy + rad < ty - rad - 1 {
        fy + rad
    } else {
        ty - rad - 1
    };
    push_box(&mut diff, bx0, bx1, ay0, ay1, fz - rad, fz + rad);
    proof {
        lemma_diff_step(p1, diff@, f0, t0, r, 1);
        assert forall|c: Cell|
            #[trigger] in_region(f0, r, c) && !in_region(t0, r, c) && axis_of(t0, r, c) < 2
                implies exists|i: int| 0 <= i < diff@.len() && diff@[i] == c by {
            if axis_of(t0, r, c) == 1 {
                assert(in_box(bx0 as int, bx1 as int, ay0 as int, ay1 as int, (fz - rad) as int,
                    (fz + rad) as int, c));
                let i = choose|i: int| p1.len() <= i < diff@.len() && diff@[i] == c;
                assert(diff@[i] == c);
            } else {
                let i = choose|i: int| 0 <= i < p1.len() && p1[i] == c;
                assert(diff@[i] == c);
            }
        }
    }
    let ghost p2 = diff@;

    // z pass: x and y both restricted to the shared ranges
    let by0: i64 = if fy < ty {
        ty - rad
    } else {
        fy - rad
    };
    let by1: i64 = if fy < ty {
        fy + rad
    } else {
        ty + rad
    };
    let az0: i64 = if fz < tz {
        fz - rad
    } else if fz - rad > tz + rad + 1 {
        fz - rad
    } else {
        tz + rad + 1
    };
    let az1: i64 = if fz >= tz {
        fz + rad
    } else if fz + rad < tz - rad - 1 {
        fz + rad
    } else {
        tz - rad - 1
    };
    push_box(&mut diff, bx0, bx1, by0, by1, az0, az1);
    proof {
        lemma_diff_step(p2, diff@, f0, t0, r, 2);
        assert forall|c: Cell| #[trigger] in_region(f0, r, c) && !in_region(t0, r, c) implies diff@
            .contains(c) by {
            assert(0 <= axis_of(t0, r, c) < 3);
            if axis_of(t0, r, c) == 2 {
                assert(in_box(bx0 as int, bx1 as int, by0 as int, by1 as int, az0 as int,
                    az1 as int, c));
                let i = choose|i: int| p2.len() <= i < diff@.len() && diff@[i] == c;
                assert(diff@[i] == c);
            } else {
                let i = choose|i: int| 0 <= i < p2.len() && p2[i] == c;
                assert(diff@[i] == c);
            }
        }
        if f0 == t0 && diff@.len() > 0 {
            assert(in_region(f0, r, diff@[0]) && !in_region(t0, r, diff@[0]));
        }
    }
    diff
}

} // verus!
