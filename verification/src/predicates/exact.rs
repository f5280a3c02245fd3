//! The predicates, evaluated on exact integers.
//!
//! The coordinates of one call are brought to a common power of two and
//! become integers; scaling all of them alike does not change the sign of a
//! homogeneous determinant.

use super::{
    det2, det3, incircle_det, insphere_det, lifted3, norm3, orient2d_det, orient3d_det, orientation_of, Orientation,
};
use crate::double::Double;
use crate::integer::Integer;
use crate::math::{Vec2, Vec3};
use vstd::arithmetic::mul::*;
use vstd::arithmetic::power2::*;
use vstd::prelude::*;

verus! {

/// The coordinates are the integers times one power of two.
spec fn in_scale(coords: Seq<Double>, v: Seq<Integer>, s: nat) -> bool {
    &&& v.len() == coords.len()
    &&& forall|i: int| 0 <= i < v.len() ==> coords[i].value() == (#[trigger] v[i])@ * pow2(s)
}

/// The coordinates as integers, over a common power of two.
fn to_scale(coords: &[Double]) -> (r: (Vec<Integer>, Ghost<nat>))
    requires
        forall|i: int| 0 <= i < coords@.len() ==> (#[trigger] coords@[i]).finite(),
    ensures
        in_scale(coords@, r.0@, r.1@),
{
    let mut low: u32 = 2045;
    let mut i: usize = 0;
    while i < coords.len()
        invariant
            i <= coords.len(),
            low <= 2045,
            forall|j: int| 0 <= j < coords@.len() ==> (#[trigger] coords@[j]).finite(),
            forall|j: int| 0 <= j < i ==> (#[trigger] coords@[j]).zero() || coords@[j].scale() >= low,
        decreases coords.len() - i,
    {
        let (m, e) = coords[i].decode();
        if m != 0 && e < low {
            low = e;
        }
        i = i + 1;
    }
    let mut v: Vec<Integer> = Vec::new();
    let mut j: usize = 0;
    while j < coords.len()
        invariant
            j <= coords.len(),
            low <= 2045,
            forall|j: int| 0 <= j < coords@.len() ==> (#[trigger] coords@[j]).finite(),
            forall|j: int| 0 <= j < coords@.len() ==> (#[trigger] coords@[j]).zero() || coords@[j].scale() >= low,
            v.len() == j,
            forall|i: int| 0 <= i < j ==> coords@[i].value() == (#[trigger] v@[i])@ * pow2(low as nat),
        decreases coords.len() - j,
    {
        let (m, e) = coords[j].decode();
        let negative: bool = coords[j].is_sign_negative();
        if e >= low {
            let x: Integer = Integer::shifted(negative, m, e - low);
            proof {
                lemma_pow2_adds((e - low) as nat, low as nat);
                let p = pow2((e - low) as nat) as int;
                let q = pow2(low as nat) as int;
                assert((m * p) * q == m * (p * q)) by (nonlinear_arith);
                assert((-(m * p)) * q == -(m * (p * q))) by (nonlinear_arith);
            }
            v.push(x);
        } else {
            let x: Integer = Integer::shifted(false, 0, 0);
            proof {
                lemma_mul_basics(pow2(0) as int);
                lemma_mul_basics(pow2(low as nat) as int);
            }
            v.push(x);
        }
        j = j + 1;
    }
    (v, Ghost(low as nat))
}

/// `|p q|` on integers.
fn minor(px: &Integer, py: &Integer, qx: &Integer, qy: &Integer) -> (r: Integer)
    ensures
        r@ == det2(px@, py@, qx@, qy@),
{
    px.times(qy).minus(&py.times(qx))
}

/// The determinant of three rows of integers.
fn volume(p: (&Integer, &Integer, &Integer), q: (&Integer, &Integer, &Integer), r: (&Integer, &Integer, &Integer)) -> (d:
    Integer)
    ensures
        d@ == det3(p.0@, p.1@, p.2@, q.0@, q.1@, q.2@, r.0@, r.1@, r.2@),
{
    let x: Integer = p.0.times(&minor(q.1, q.2, r.1, r.2));
    let y: Integer = p.1.times(&minor(q.0, q.2, r.0, r.2));
    let z: Integer = p.2.times(&minor(q.0, q.1, r.0, r.1));
    x.minus(&y).plus(&z)
}

/// The squared length of a row of two.
fn square2(x: &Integer, y: &Integer) -> (r: Integer)
    ensures
        r@ == x@ * x@ + y@ * y@,
{
    x.times(x).plus(&y.times(y))
}

/// The squared length of a row of three.
fn square3(x: &Integer, y: &Integer, z: &Integer) -> (r: Integer)
    ensures
        r@ == norm3(x@, y@, z@),
{
    square2(x, y).plus(&z.times(z))
}

fn oriented(d: &Integer) -> (o: Orientation)
    ensures
        o == orientation_of(d@),
{
    let s: i8 = d.signum();
    if s < 0 {
        Orientation::Negative
    } else if s == 0 {
        Orientation::Zero
    } else {
        Orientation::Positive
    }
}

proof fn lemma_sign_scaled(x: int, k: int)
    requires
        k > 0,
    ensures
        orientation_of(x * k) == orientation_of(x),
{
    assert(x > 0 ==> x * k > 0) by (nonlinear_arith)
        requires
            k > 0,
    ;
    assert(x < 0 ==> x * k < 0) by (nonlinear_arith)
        requires
            k > 0,
    ;
    lemma_mul_basics(k);
}

proof fn lemma_product_scaled(x: int, y: int, i: int, j: int)
    ensures
        (x * i) * (y * j) == (x * y) * (i * j),
{
    lemma_mul_is_associative(x, i, y * j);
    lemma_mul_is_associative(i, y, j);
    lemma_mul_is_commutative(i, y);
    lemma_mul_is_associative(y, i, j);
    lemma_mul_is_associative(x, y, i * j);
}

proof fn lemma_det2_scaled(px: int, py: int, qx: int, qy: int, k: int)
    ensures
        det2(px * k, py * k, qx * k, qy * k) == det2(px, py, qx, qy) * (k * k),
{
    lemma_product_scaled(px, qy, k, k);
    lemma_product_scaled(py, qx, k, k);
    lemma_difference_scaled(px * qy, py * qx, k * k);
}

proof fn lemma_det3_scaled(px: int, py: int, pz: int, qx: int, qy: int, qz: int, rx: int, ry: int, rz: int, k: int)
    ensures
        det3(px * k, py * k, pz * k, qx * k, qy * k, qz * k, rx * k, ry * k, rz * k) == det3(
            px,
            py,
            pz,
            qx,
            qy,
            qz,
            rx,
            ry,
            rz,
        ) * (k * k * k),
{
    lemma_det2_scaled(qy, qz, ry, rz, k);
    lemma_det2_scaled(qx, qz, rx, rz, k);
    lemma_det2_scaled(qx, qy, rx, ry, k);
    let (a, b, c) = (det2(qy, qz, ry, rz), det2(qx, qz, rx, rz), det2(qx, qy, rx, ry));
    let j = k * (k * k);
    lemma_mul_is_associative(k, k, k);
    lemma_product_scaled(px, a, k, k * k);
    lemma_product_scaled(py, b, k, k * k);
    lemma_product_scaled(pz, c, k, k * k);
    lemma_difference_scaled(px * a, py * b, j);
    lemma_mul_is_distributive_add_other_way(j, px * a - py * b, pz * c);
}

proof fn lemma_difference_scaled(a: int, b: int, k: int)
    ensures
        a * k - b * k == (a - b) * k,
{
    assert(a * k - b * k == (a - b) * k) by (nonlinear_arith);
}

proof fn lemma_cube_positive(k: int)
    requires
        k > 0,
    ensures
        k * k > 0,
        k * k * k > 0,
{
    assert(k * k > 0) by (nonlinear_arith)
        requires
            k > 0,
    ;
    assert(k * k * k > 0) by (nonlinear_arith)
        requires
            k > 0,
            k * k > 0,
    ;
}

/// The sign of [`orient2d_det`].
pub(crate) fn orient2d_sign(a: Vec2, b: Vec2, c: Vec2) -> (o: Orientation)
    requires
        a.finite(),
        b.finite(),
        c.finite(),
    ensures
        o == orientation_of(orient2d_det(a, b, c)),
{
    let coords: [Double; 6] = [a.x, a.y, b.x, b.y, c.x, c.y];
    let (v, Ghost(s)) = to_scale(coords.as_slice());
    let px: Integer = v[0].minus(&v[4]);
    let py: Integer = v[1].minus(&v[5]);
    let qx: Integer = v[2].minus(&v[4]);
    let qy: Integer = v[3].minus(&v[5]);
    let d: Integer = minor(&px, &py, &qx, &qy);
    proof {
        let k = pow2(s) as int;
        lemma_pow2_pos(s);
        assert forall|i: int| 0 <= i < 6 implies coords@[i].value() == (#[trigger] v@[i])@ * k by {
        }
        lemma_difference_scaled(v@[0]@, v@[4]@, k);
        lemma_difference_scaled(v@[1]@, v@[5]@, k);
        lemma_difference_scaled(v@[2]@, v@[4]@, k);
        lemma_difference_scaled(v@[3]@, v@[5]@, k);
        lemma_det2_scaled(px@, py@, qx@, qy@, k);
        lemma_cube_positive(k);
        lemma_sign_scaled(d@, k * k);
    }
    oriented(&d)
}

/// The sign of [`orient3d_det`].
pub(crate) fn orient3d_sign(a: Vec3, b: Vec3, c: Vec3, d: Vec3) -> (o: Orientation)
    requires
        a.finite(),
        b.finite(),
        c.finite(),
        d.finite(),
    ensures
        o == orientation_of(orient3d_det(a, b, c, d)),
{
    let coords: [Double; 12] = [a.x, a.y, a.z, b.x, b.y, b.z, c.x, c.y, c.z, d.x, d.y, d.z];
    let (v, Ghost(s)) = to_scale(coords.as_slice());
    let px: Integer = v[0].minus(&v[9]);
    let py: Integer = v[1].minus(&v[10]);
    let pz: Integer = v[2].minus(&v[11]);
    let qx: Integer = v[3].minus(&v[9]);
    let qy: Integer = v[4].minus(&v[10]);
    let qz: Integer = v[5].minus(&v[11]);
    let rx: Integer = v[6].minus(&v[9]);
    let ry: Integer = v[7].minus(&v[10]);
    let rz: Integer = v[8].minus(&v[11]);
    let det: Integer = volume((&px, &py, &pz), (&qx, &qy, &qz), (&rx, &ry, &rz));
    proof {
        let k = pow2(s) as int;
        lemma_pow2_pos(s);
        assert forall|i: int| 0 <= i < 12 implies coords@[i].value() == (#[trigger] v@[i])@ * k by {
        }
        lemma_difference_scaled(v@[0]@, v@[9]@, k);
        lemma_difference_scaled(v@[1]@, v@[10]@, k);
        lemma_difference_scaled(v@[2]@, v@[11]@, k);
        lemma_difference_scaled(v@[3]@, v@[9]@, k);
        lemma_difference_scaled(v@[4]@, v@[10]@, k);
        lemma_difference_scaled(v@[5]@, v@[11]@, k);
        lemma_difference_scaled(v@[6]@, v@[9]@, k);
        lemma_difference_scaled(v@[7]@, v@[10]@, k);
        lemma_difference_scaled(v@[8]@, v@[11]@, k);
        lemma_det3_scaled(px@, py@, pz@, qx@, qy@, qz@, rx@, ry@, rz@, k);
        lemma_cube_positive(k);
        lemma_sign_scaled(det@, k * k * k);
    }
    oriented(&det)
}

proof fn lemma_square_scaled(x: int, y: int, z: int, k: int)
    ensures
        (x * k) * (x * k) + (y * k) * (y * k) == (x * x + y * y) * (k * k),
        norm3(x * k, y * k, z * k) == norm3(x, y, z) * (k * k),
{
    lemma_product_scaled(x, x, k, k);
    lemma_product_scaled(y, y, k, k);
    lemma_product_scaled(z, z, k, k);
    lemma_mul_is_distributive_add_other_way(k * k, x * x, y * y);
    lemma_mul_is_distributive_add_other_way(k * k, x * x + y * y, z * z);
}

/// The sign of [`incircle_det`].
pub(crate) fn incircle_sign(a: Vec2, b: Vec2, c: Vec2, d: Vec2) -> (o: Orientation)
    requires
        a.finite(),
        b.finite(),
        c.finite(),
        d.finite(),
    ensures
        o == orientation_of(incircle_det(a, b, c, d)),
{
    let coords: [Double; 8] = [a.x, a.y, b.x, b.y, c.x, c.y, d.x, d.y];
    let (v, Ghost(s)) = to_scale(coords.as_slice());
    let px: Integer = v[0].minus(&v[6]);
    let py: Integer = v[1].minus(&v[7]);
    let qx: Integer = v[2].minus(&v[6]);
    let qy: Integer = v[3].minus(&v[7]);
    let rx: Integer = v[4].minus(&v[6]);
    let ry: Integer = v[5].minus(&v[7]);
    let (sp, sq, sr) = (square2(&px, &py), square2(&qx, &qy), square2(&rx, &ry));
    let (mp, mq, mr) = (minor(&qx, &qy, &rx, &ry), minor(&px, &py, &rx, &ry), minor(&px, &py, &qx, &qy));
    let det: Integer = sp.times(&mp).minus(&sq.times(&mq)).plus(&sr.times(&mr));
    proof {
        let k = pow2(s) as int;
        lemma_pow2_pos(s);
        assert forall|i: int| 0 <= i < 8 implies coords@[i].value() == (#[trigger] v@[i])@ * k by {
        }
        lemma_difference_scaled(v@[0]@, v@[6]@, k);
        lemma_difference_scaled(v@[1]@, v@[7]@, k);
        lemma_difference_scaled(v@[2]@, v@[6]@, k);
        lemma_difference_scaled(v@[3]@, v@[7]@, k);
        lemma_difference_scaled(v@[4]@, v@[6]@, k);
        lemma_difference_scaled(v@[5]@, v@[7]@, k);
        lemma_square_scaled(px@, py@, 0, k);
        lemma_square_scaled(qx@, qy@, 0, k);
        lemma_square_scaled(rx@, ry@, 0, k);
        lemma_det2_scaled(qx@, qy@, rx@, ry@, k);
        lemma_det2_scaled(px@, py@, rx@, ry@, k);
        lemma_det2_scaled(px@, py@, qx@, qy@, k);
        let j = k * k;
        let (x, y, z, e, f, g) = (sp@, sq@, sr@, mp@, mq@, mr@);
        lemma_product_scaled(x, e, j, j);
        lemma_product_scaled(y, f, j, j);
        lemma_product_scaled(z, g, j, j);
        lemma_difference_scaled(x * e, y * f, j * j);
        lemma_mul_is_distributive_add_other_way(j * j, x * e - y * f, z * g);
        lemma_cube_positive(k);
        lemma_cube_positive(j);
        lemma_sign_scaled(det@, j * j);
    }
    oriented(&det)
}

/// The sign of [`insphere_det`].
#[verifier::rlimit(40)]
pub(crate) fn insphere_sign(a: Vec3, b: Vec3, c: Vec3, d: Vec3, e: Vec3) -> (o: Orientation)
    requires
        a.finite(),
        b.finite(),
        c.finite(),
        d.finite(),
        e.finite(),
    ensures
        o == orientation_of(insphere_det(a, b, c, d, e)),
{
    let coords: [Double; 15] = [a.x, a.y, a.z, b.x, b.y, b.z, c.x, c.y, c.z, d.x, d.y, d.z, e.x, e.y, e.z];
    let (v, Ghost(s)) = to_scale(coords.as_slice());
    let px: Integer = v[0].minus(&v[12]);
    let py: Integer = v[1].minus(&v[13]);
    let pz: Integer = v[2].minus(&v[14]);
    let qx: Integer = v[3].minus(&v[12]);
    let qy: Integer = v[4].minus(&v[13]);
    let qz: Integer = v[5].minus(&v[14]);
    let rx: Integer = v[6].minus(&v[12]);
    let ry: Integer = v[7].minus(&v[13]);
    let rz: Integer = v[8].minus(&v[14]);
    let sx: Integer = v[9].minus(&v[12]);
    let sy: Integer = v[10].minus(&v[13]);
    let sz: Integer = v[11].minus(&v[14]);
    let (np, nq) = (square3(&px, &py, &pz), square3(&qx, &qy, &qz));
    let (nr, ns) = (square3(&rx, &ry, &rz), square3(&sx, &sy, &sz));
    let pqr: Integer = volume((&px, &py, &pz), (&qx, &qy, &qz), (&rx, &ry, &rz));
    let pqs: Integer = volume((&px, &py, &pz), (&qx, &qy, &qz), (&sx, &sy, &sz));
    let prs: Integer = volume((&px, &py, &pz), (&rx, &ry, &rz), (&sx, &sy, &sz));
    let qrs: Integer = volume((&qx, &qy, &qz), (&rx, &ry, &rz), (&sx, &sy, &sz));
    let det: Integer = ns.times(&pqr).minus(&nr.times(&pqs)).plus(&nq.times(&prs)).minus(&np.times(&qrs));
    proof {
        let k = pow2(s) as int;
        lemma_pow2_pos(s);
        assert forall|i: int| 0 <= i < 15 implies coords@[i].value() == (#[trigger] v@[i])@ * k by {
        }
        lemma_difference_scaled(v@[0]@, v@[12]@, k);
        lemma_difference_scaled(v@[1]@, v@[13]@, k);
        lemma_difference_scaled(v@[2]@, v@[14]@, k);
        lemma_difference_scaled(v@[3]@, v@[12]@, k);
        lemma_difference_scaled(v@[4]@, v@[13]@, k);
        lemma_difference_scaled(v@[5]@, v@[14]@, k);
        lemma_difference_scaled(v@[6]@, v@[12]@, k);
        lemma_difference_scaled(v@[7]@, v@[13]@, k);
        lemma_difference_scaled(v@[8]@, v@[14]@, k);
        lemma_difference_scaled(v@[9]@, v@[12]@, k);
        lemma_difference_scaled(v@[10]@, v@[13]@, k);
        lemma_difference_scaled(v@[11]@, v@[14]@, k);
        lemma_lifted3_scaled(px@, py@, pz@, qx@, qy@, qz@, rx@, ry@, rz@, sx@, sy@, sz@, k);
        lemma_cube_positive(k);
        lemma_mul_strictly_positive(k * k, k * k * k);
        lemma_sign_scaled(det@, (k * k) * (k * k * k));
    }
    oriented(&det)
}

proof fn lemma_lifted3_scaled(
    px: int,
    py: int,
    pz: int,
    qx: int,
    qy: int,
    qz: int,
    rx: int,
    ry: int,
    rz: int,
    sx: int,
    sy: int,
    sz: int,
    k: int,
)
    ensures
        lifted3(
            px * k,
            py * k,
            pz * k,
            qx * k,
            qy * k,
            qz * k,
            rx * k,
            ry * k,
            rz * k,
            sx * k,
            sy * k,
            sz * k,
        ) == lifted3(px, py, pz, qx, qy, qz, rx, ry, rz, sx, sy, sz) * ((k * k) * (k * k * k)),
{
    lemma_square_scaled(px, py, pz, k);
    lemma_square_scaled(qx, qy, qz, k);
    lemma_square_scaled(rx, ry, rz, k);
    lemma_square_scaled(sx, sy, sz, k);
    lemma_det3_scaled(px, py, pz, qx, qy, qz, rx, ry, rz, k);
    lemma_det3_scaled(px, py, pz, qx, qy, qz, sx, sy, sz, k);
    lemma_det3_scaled(px, py, pz, rx, ry, rz, sx, sy, sz, k);
    lemma_det3_scaled(qx, qy, qz, rx, ry, rz, sx, sy, sz, k);
    let (i, j) = (k * k, k * k * k);
    let (x, y, z, w) = (norm3(sx, sy, sz), norm3(rx, ry, rz), norm3(qx, qy, qz), norm3(px, py, pz));
    let (e, f, g, h) = (
        det3(px, py, pz, qx, qy, qz, rx, ry, rz),
        det3(px, py, pz, qx, qy, qz, sx, sy, sz),
        det3(px, py, pz, rx, ry, rz, sx, sy, sz),
        det3(qx, qy, qz, rx, ry, rz, sx, sy, sz),
    );
    lemma_product_scaled(x, e, i, j);
    lemma_product_scaled(y, f, i, j);
    lemma_product_scaled(z, g, i, j);
    lemma_product_scaled(w, h, i, j);
    lemma_difference_scaled(x * e, y * f, i * j);
    lemma_mul_is_distributive_add_other_way(i * j, x * e - y * f, z * g);
    lemma_difference_scaled(x * e - y * f + z * g, w * h, i * j);
}

} // verus!
