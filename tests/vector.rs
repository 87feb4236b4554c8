use s2shell::vector::{Vector2, Vector3};

#[test]
fn test_vector3_add() {
    let v1 = Vector3::new(1, 2, 3);
    let v2 = Vector3::new(4, 5, 6);
    assert_eq!(v1 + v2, Vector3::new(5, 7, 9));
    assert_eq!(v2 + v1, Vector3::new(5, 7, 9));
}

#[test]
fn test_vector3_sub() {
    let v1 = Vector3::new(4, 5, 6);
    let v2 = Vector3::new(1, 2, 3);
    assert_eq!(v1 - v2, Vector3::new(3, 3, 3));
}

#[test]
fn test_vector3_mul() {
    let v = Vector3::new(2, 3, 4);
    let s = 3;
    assert_eq!(v * s, Vector3::new(6, 9, 12));
    assert_eq!(s * v, Vector3::new(6, 9, 12));
}

#[test]
fn vector2_arithmetic() {
    let a = Vector2::new(1, 2);
    let b = Vector2::new(4, 5);
    assert_eq!(a + b, Vector2::new(5, 7));
    assert_eq!(b - a, Vector2::new(3, 3));
    assert_eq!(a * 3, Vector2::new(3, 6));
    assert_eq!(3 * a, Vector2::new(3, 6));
    assert_eq!(a.x(), 1);
    assert_eq!(a.y(), 2);
}

#[test]
fn vector2_products() {
    let v1 = Vector2::new(1, 2);
    let v2 = Vector2::new(4, 5);
    assert_eq!(v1.dot_prod(&v2), 14);
    assert_eq!(v1.norm2(), 5);
    assert_eq!(v1.cross_prod(&v2), -3);
    assert_eq!(v2.cross_prod(&v1), 3);
}

#[test]
fn vector2_ortho_and_abs() {
    let v = Vector2::new(1, 2);
    assert_eq!(v.ortho(), Vector2::new(-2, 1));
    assert_eq!(v.dot_prod(&v.ortho()), 0);
    assert_eq!(Vector2::new(-1, -2).abs(), Vector2::new(1, 2));
    assert_eq!(Vector2::new(-3i64, 2).abs(), Vector2::new(3i64, 2));
}

#[test]
fn vector_zero_and_default() {
    let z2: Vector2<i32> = Vector2::zero();
    assert_eq!(z2, Vector2::new(0, 0));
    let d2: Vector2<i64> = Vector2::default();
    assert_eq!(d2, Vector2::new(0, 0));
    let z3: Vector3<i32> = Vector3::zero();
    assert_eq!(z3, Vector3::new(0, 0, 0));
    let d3: Vector3<i64> = Vector3::default();
    assert_eq!(d3, Vector3::new(0, 0, 0));
}

#[test]
fn vector3_products() {
    let v1 = Vector3::new(1, 2, 3);
    let v2 = Vector3::new(4, 5, 6);
    assert_eq!(v1.dot_prod(&v2), 32);
    assert_eq!(v1.norm2(), 14);
    assert_eq!(v1.cross_prod(&v2), Vector3::new(-3, 6, -3));
    assert_eq!(v2.cross_prod(&v1), Vector3::new(3, -6, 3));
    let c = v1.cross_prod(&v2);
    assert_eq!(c.dot_prod(&v1), 0);
    assert_eq!(c.dot_prod(&v2), 0);
}

#[test]
fn vector3_accessors_and_abs() {
    let v = Vector3::new(-1, -2, -3);
    assert_eq!(v.x(), -1);
    assert_eq!(v.y(), -2);
    assert_eq!(v.z(), -3);
    assert_eq!(v.abs(), Vector3::new(1, 2, 3));
    assert_eq!(Vector3::new(-3i64, 2, 1).abs(), Vector3::new(3i64, 2, 1));
}

#[test]
fn vector3_largest_abs_component() {
    assert_eq!(Vector3::new(-3, 2, -1).largest_abs_component(), 0);
    assert_eq!(Vector3::new(1, 3, -2).largest_abs_component(), 1);
    assert_eq!(Vector3::new(0, 1, -2).largest_abs_component(), 2);
    // ties go to the later component
    assert_eq!(Vector3::new(5, -5, 1).largest_abs_component(), 1);
    assert_eq!(Vector3::new(-4, 1, 4).largest_abs_component(), 2);
    assert_eq!(Vector3::new(7, 7, 7).largest_abs_component(), 2);
    assert_eq!(Vector3::new(0, 0, 0).largest_abs_component(), 2);
}

#[test]
fn vector3_i64_arithmetic() {
    let big = 1i64 << 40;
    let v = Vector3::new(big, -big, 1);
    assert_eq!(v + v, Vector3::new(2 * big, -2 * big, 2));
    assert_eq!(v - v, Vector3::new(0, 0, 0));
    assert_eq!(2i64 * v, Vector3::new(2 * big, -2 * big, 2));
    assert_eq!(v * 2i64, Vector3::new(2 * big, -2 * big, 2));
}
