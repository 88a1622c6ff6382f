use octomap::pointcloud2::{datatype, Cloud, CloudError, FieldRef, Scalar};

fn to_f64(s: Scalar) -> f64 {
    match s {
        Scalar::Int8(v) => v as f64,
        Scalar::UInt8(v) => v as f64,
        Scalar::Int16(v) => v as f64,
        Scalar::UInt16(v) => v as f64,
        Scalar::Int32(v) => v as f64,
        Scalar::UInt32(v) => v as f64,
        Scalar::Float32(bits) => f32::from_bits(bits) as f64,
        Scalar::Float64(bits) => f64::from_bits(bits),
    }
}

/// Every point of the cloud, each coordinate widened and then narrowed to
/// `f32` the way a point type holding `f32` would store it.
fn decode(cloud: &Cloud<'_>) -> Vec<[f32; 3]> {
    let mut out = Vec::new();
    let mut it = cloud.iter();
    while let Some(p) = it.next() {
        out.push([to_f64(p.x) as f32, to_f64(p.y) as f32, to_f64(p.z) as f32]);
    }
    out
}

fn xyz_fields() -> [FieldRef<'static>; 3] {
    [
        FieldRef::new("x", 0, datatype::FLOAT32, 1),
        FieldRef::new("y", 4, datatype::FLOAT32, 1),
        FieldRef::new("z", 8, datatype::FLOAT32, 1),
    ]
}

fn blob(points: &[[f32; 3]]) -> Vec<u8> {
    let mut data = Vec::new();
    for p in points {
        for v in p {
            data.extend_from_slice(&v.to_le_bytes());
        }
    }
    data
}

#[test]
fn a_packed_xyz_cloud_decodes_in_order() {
    let points = [[1.0, 2.0, 3.0], [-4.0, 5.5, 6.25]];
    let data = blob(&points);
    let cloud = Cloud::new(&xyz_fields(), &data, 2, 1, 12, 24, false).unwrap();

    assert_eq!(cloud.len(), 2);
    let decoded = decode(&cloud);
    assert_eq!(decoded, points);
}

#[test]
fn extra_fields_and_padding_are_stepped_over() {
    let fields = [
        FieldRef::new("x", 0, datatype::FLOAT32, 1),
        FieldRef::new("y", 4, datatype::FLOAT32, 1),
        FieldRef::new("z", 8, datatype::FLOAT32, 1),
        FieldRef::new("intensity", 12, datatype::FLOAT32, 1),
        FieldRef::new("ring", 16, datatype::UINT16, 1),
    ];

    let mut data = vec![0u8; 64];
    for (i, p) in [[1.0f32, 2.0, 3.0], [4.0, 5.0, 6.0]].iter().enumerate() {
        let base = i * 32;
        for (a, v) in p.iter().enumerate() {
            data[base + a * 4..base + a * 4 + 4].copy_from_slice(&v.to_le_bytes());
        }
        data[base + 12..base + 16].copy_from_slice(&0.5f32.to_le_bytes());
    }

    let cloud = Cloud::new(&fields, &data, 2, 1, 32, 64, false).unwrap();
    let decoded = decode(&cloud);
    assert_eq!(decoded, [[1.0, 2.0, 3.0], [4.0, 5.0, 6.0]]);
}

#[test]
fn organized_clouds_honor_row_step_padding() {
    let point_step = 12usize;
    let row_step = 2 * point_step + 8;
    let mut data = vec![0u8; 2 * row_step];
    let points = [
        [0.0f32, 0.0, 0.0],
        [1.0, 0.0, 0.0],
        [0.0, 1.0, 0.0],
        [1.0, 1.0, 0.0],
    ];
    for (i, p) in points.iter().enumerate() {
        let base = (i / 2) * row_step + (i % 2) * point_step;
        for (a, v) in p.iter().enumerate() {
            data[base + a * 4..base + a * 4 + 4].copy_from_slice(&v.to_le_bytes());
        }
    }

    let cloud = Cloud::new(
        &xyz_fields(),
        &data,
        2,
        2,
        point_step as u32,
        row_step as u32,
        false,
    )
    .unwrap();
    let decoded = decode(&cloud);
    assert_eq!(decoded, points, "padding between rows must be skipped");
}

#[test]
fn big_endian_data_is_byte_swapped() {
    let mut data = Vec::new();
    for v in [1.5f32, -2.5, 3.5] {
        data.extend_from_slice(&v.to_be_bytes());
    }

    let cloud = Cloud::new(&xyz_fields(), &data, 1, 1, 12, 12, true).unwrap();
    let p = decode(&cloud)[0];
    assert_eq!(p, [1.5, -2.5, 3.5]);
}

#[test]
fn every_pointfield_datatype_reads_back() {
    let fields = [
        FieldRef::new("x", 0, datatype::INT16, 1),
        FieldRef::new("y", 2, datatype::UINT8, 1),
        FieldRef::new("z", 3, datatype::FLOAT64, 1),
    ];
    let mut data = Vec::new();
    data.extend_from_slice(&(-7i16).to_le_bytes());
    data.push(200u8);
    data.extend_from_slice(&0.125f64.to_le_bytes());

    let cloud = Cloud::new(&fields, &data, 1, 1, 11, 11, false).unwrap();
    let p = decode(&cloud)[0];
    assert_eq!(p, [-7.0, 200.0, 0.125]);
}

#[test]
fn non_finite_points_survive_decoding_and_are_left_to_the_filter() {
    let data = blob(&[[f32::NAN, 0.0, 0.0], [1.0, 1.0, 1.0]]);
    let cloud = Cloud::new(&xyz_fields(), &data, 2, 1, 12, 24, false).unwrap();
    let decoded = decode(&cloud);
    assert_eq!(decoded.len(), 2, "decoding does not drop points");
    assert!(decoded[0][0].is_nan());
}

#[test]
fn a_cloud_without_coordinates_is_rejected() {
    let fields = [
        FieldRef::new("intensity", 0, datatype::FLOAT32, 1),
        FieldRef::new("x", 4, datatype::FLOAT32, 1),
        FieldRef::new("y", 8, datatype::FLOAT32, 1),
    ];
    assert_eq!(
        Cloud::new(&fields, &[0u8; 12], 1, 1, 12, 12, false).unwrap_err(),
        CloudError::MissingField("z")
    );
}

#[test]
fn a_field_reaching_past_the_stride_is_rejected() {
    let fields = [
        FieldRef::new("x", 0, datatype::FLOAT32, 1),
        FieldRef::new("y", 4, datatype::FLOAT32, 1),
        FieldRef::new("z", 8, datatype::FLOAT32, 1),
    ];
    assert_eq!(
        Cloud::new(&fields, &[0u8; 32], 1, 1, 10, 10, false).unwrap_err(),
        CloudError::FieldOutOfBounds {
            field: "z",
            end: 12,
            point_step: 10,
        }
    );
}

#[test]
fn pointcloud2_a_blob_shorter_than_the_declared_geometry_is_rejected() {
    let data = blob(&[[1.0, 2.0, 3.0]]);
    assert_eq!(
        Cloud::new(&xyz_fields(), &data, 4, 1, 12, 48, false).unwrap_err(),
        CloudError::ShortData {
            expected: 48,
            actual: 12,
        }
    );
}

#[test]
fn a_trimmed_last_row_is_accepted() {
    let point_step = 12usize;
    let row_step = 32usize;
    let mut data = vec![0u8; row_step + point_step];
    data[row_step..row_step + 4].copy_from_slice(&9.0f32.to_le_bytes());

    let cloud = Cloud::new(
        &xyz_fields(),
        &data,
        1,
        2,
        point_step as u32,
        row_step as u32,
        false,
    )
    .unwrap();
    assert_eq!(decode(&cloud)[1][0], 9.0);
}

#[test]
fn an_unknown_datatype_is_reported_with_its_value() {
    let fields = [
        FieldRef::new("x", 0, datatype::FLOAT32, 1),
        FieldRef::new("y", 4, datatype::FLOAT32, 1),
        FieldRef::new("z", 8, 99, 1),
    ];
    assert_eq!(
        Cloud::new(&fields, &[0u8; 12], 1, 1, 12, 12, false).unwrap_err(),
        CloudError::UnsupportedDatatype {
            field: "z",
            datatype: 99,
        }
    );
}

#[test]
fn an_empty_cloud_yields_no_points() {
    let cloud = Cloud::new(&xyz_fields(), &[], 0, 1, 12, 0, false).unwrap();
    assert!(cloud.is_empty());
    assert_eq!(decode(&cloud).len(), 0);
}

#[test]
fn a_zero_point_step_is_rejected_first() {
    assert_eq!(
        Cloud::new(&xyz_fields(), &[], 1, 1, 0, 0, false).unwrap_err(),
        CloudError::ZeroPointStep
    );
}

#[test]
fn a_field_with_count_zero_holds_nothing() {
    let fields = [
        FieldRef::new("x", 0, datatype::FLOAT32, 0),
        FieldRef::new("y", 4, datatype::FLOAT32, 1),
        FieldRef::new("z", 8, datatype::FLOAT32, 1),
    ];
    assert_eq!(
        Cloud::new(&fields, &[0u8; 12], 1, 1, 12, 12, false).unwrap_err(),
        CloudError::EmptyField("x")
    );
}

#[test]
fn the_first_field_of_a_name_is_the_one_used() {
    let fields = [
        FieldRef::new("x", 0, datatype::FLOAT32, 1),
        FieldRef::new("x", 4, datatype::FLOAT32, 1),
        FieldRef::new("y", 4, datatype::FLOAT32, 1),
        FieldRef::new("z", 8, datatype::FLOAT32, 1),
    ];
    let data = blob(&[[7.0, 8.0, 9.0]]);
    let cloud = Cloud::new(&fields, &data, 1, 1, 12, 12, false).unwrap();
    assert_eq!(decode(&cloud)[0], [7.0, 8.0, 9.0]);
}

#[test]
fn a_row_step_smaller_than_a_row_is_read_as_packed() {
    let data = blob(&[[1.0, 0.0, 0.0], [2.0, 0.0, 0.0], [3.0, 0.0, 0.0], [4.0, 0.0, 0.0]]);
    let cloud = Cloud::new(&xyz_fields(), &data, 2, 2, 12, 5, false).unwrap();
    let xs: Vec<f32> = decode(&cloud).iter().map(|p| p[0]).collect();
    assert_eq!(xs, vec![1.0, 2.0, 3.0, 4.0]);
}

#[test]
fn integer_coordinates_keep_their_sign_in_big_endian() {
    let fields = [
        FieldRef::new("x", 0, datatype::INT32, 1),
        FieldRef::new("y", 4, datatype::UINT32, 1),
        FieldRef::new("z", 8, datatype::INT8, 1),
    ];
    let mut data = Vec::new();
    data.extend_from_slice(&(-123456i32).to_be_bytes());
    data.extend_from_slice(&4_000_000_000u32.to_be_bytes());
    data.push((-5i8) as u8);
    let cloud = Cloud::new(&fields, &data, 1, 1, 9, 9, true).unwrap();
    let mut it = cloud.iter();
    let p = it.next().unwrap();
    assert_eq!(p.x, Scalar::Int32(-123456));
    assert_eq!(p.y, Scalar::UInt32(4_000_000_000));
    assert_eq!(p.z, Scalar::Int8(-5));
    assert!(it.next().is_none());
    assert_eq!(it.remaining(), 0);
}
