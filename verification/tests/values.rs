use wpilib::geometry::{Pose3d, Rotation3d, Transform3d, Translation3d};
use wpilib::units::{foot_to_inch, meter_to_centimeter, Centimeter, Feet, Inch, Meter, Second};

#[test]
fn transform_between_poses_is_their_difference() {
    let initial = Pose3d::new_trans_rot(
        Translation3d::new_xyz(1, 2, 3),
        Rotation3d::new_angles(10, 20, 30),
    );
    let last = Pose3d::new_trans_rot(
        Translation3d::new_xyz(4, 6, 8),
        Rotation3d::new_angles(15, 15, 45),
    );
    let t = Transform3d::new_pose_pose(initial, last);
    assert_eq!(t.translation, Translation3d::new_xyz(3, 4, 5));
    assert_eq!(t.rotation, Rotation3d::new_angles(5, -5, 15));
}

#[test]
fn transform_round_trip_through_pose() {
    let t = Transform3d::new_trans_rot(
        Translation3d::new_xyz(7, -2, 0),
        Rotation3d::new_angles(0, 90, -45),
    );
    let moved = Pose3d::new().transform_by(t);
    assert_eq!(Transform3d::new_pose_pose(Pose3d::new(), moved), t);
}

#[test]
fn transform_plus_accumulates_offsets() {
    let a = Transform3d::new_trans_rot(
        Translation3d::new_xyz(1, 0, -1),
        Rotation3d::new_angles(10, 0, 0),
    );
    let b = Transform3d::new_trans_rot(
        Translation3d::new_xyz(2, 5, 1),
        Rotation3d::new_angles(-10, 0, 90),
    );
    let sum = a.plus(&b);
    assert_eq!(sum.translation, Translation3d::new_xyz(3, 5, 0));
    assert_eq!(sum.rotation, Rotation3d::new_angles(0, 0, 90));
}

#[test]
fn inverse_cancels_a_transform() {
    let t = Transform3d::new_trans_rot(
        Translation3d::new_xyz(12, -7, 3),
        Rotation3d::new_angles(45, -90, 180),
    );
    assert_eq!(t.plus(&t.inverse()), Transform3d::new());
    assert_eq!(t.inverse().plus(&t), Transform3d::default());
}

#[test]
fn meters_per_second_is_exact() {
    let v = Meter::new(3).per_second(Second::new(2));
    assert_eq!(v.value(), 6);
    let v = Feet::new(-4).per_second(Second::new(5));
    assert_eq!(v.value(), -20);
}

#[test]
fn inches_scale_to_feet_toward_zero() {
    let v = Inch::new(25).to_feet_per_second(Second::new(1));
    assert_eq!(v.value(), 2);
    let v = Inch::new(-25).to_feet_per_second(Second::new(1));
    assert_eq!(v.value(), -2);
    let v = Inch::new(24).to_feet_per_second(Second::new(2));
    assert_eq!(v.value(), 4);
}

#[test]
fn centimeters_scale_to_meters_toward_zero() {
    let v = Centimeter::new(250).to_meter_per_second(Second::new(2));
    assert_eq!(v.value(), 5);
    let v = Centimeter::new(-150).to_meter_per_second(Second::new(1));
    assert_eq!(v.value(), -1);
}

#[test]
fn exact_distance_conversions() {
    assert_eq!(foot_to_inch(3), 36);
    assert_eq!(foot_to_inch(-2), -24);
    assert_eq!(meter_to_centimeter(7), 700);
    assert_eq!(meter_to_centimeter(-1), -100);
}
