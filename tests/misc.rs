use aeonetica::error::AET;
use aeonetica::matrix::Matrix4;
use aeonetica::render::VertexLocation;

#[test]
fn matrix_new_keeps_values() {
    let data: [i32; 16] = core::array::from_fn(|i| i as i32);
    let m = Matrix4::new(data);
    assert_eq!(m.0, data);
}

#[test]
fn matrix_fill_repeats_the_value() {
    let m = Matrix4::fill("v".to_string());
    assert!(m.0.iter().all(|x| x == "v"));
    assert_eq!(Matrix4::fill(0.5f32).0, [0.5f32; 16]);
}

#[test]
fn vertex_location_getters() {
    let l = VertexLocation::new(3, 40, 4);
    assert_eq!((*l.batch(), l.offset(), l.count()), (3, 40, 4));
}

#[test]
fn error_message_is_its_payload() {
    assert_eq!(AET::NetworkError("client 3 does not exist".to_string()).message(), "client 3 does not exist");
    assert_eq!(AET::ModConflict("two".to_string()).message(), "two");
}
