use kdtree::vector::Vector3;

#[test]
fn dot_test() {
    let px = Vector3 { x: 1, y: 2, z: 3 };
    let py = Vector3 { x: 4, y: 5, z: 6 };
    assert!(Vector3::dot(px, py) == 32);
}

#[test]
fn cross_of_first_two_axes_is_third() {
    let c = Vector3::cross(Vector3::x_hat(), Vector3::y_hat());
    assert_eq!(c, Vector3::z_hat());
}

#[test]
fn cross_test() {
    let u = Vector3 { x: 1, y: 2, z: 3 };
    let v = Vector3 { x: 4, y: 5, z: 6 };
    let c = Vector3::cross(u, v);
    assert_eq!(c, Vector3 { x: -3, y: 6, z: -3 });
}

#[test]
fn square_magnitude_test() {
    let v = Vector3 { x: 1, y: 2, z: 3 };
    assert_eq!(v.square_magnitude(), 14);
    assert_eq!(Vector3::zero().square_magnitude(), 0);
}

#[test]
fn unit_vectors() {
    assert_eq!(Vector3::x_hat(), Vector3 { x: 1, y: 0, z: 0 });
    assert_eq!(Vector3::y_hat(), Vector3 { x: 0, y: 1, z: 0 });
    assert_eq!(Vector3::z_hat(), Vector3 { x: 0, y: 0, z: 1 });
    assert_eq!(Vector3::zero(), Vector3 { x: 0, y: 0, z: 0 });
    assert_eq!(Vector3::dot(Vector3::x_hat(), Vector3::y_hat()), 0);
}
