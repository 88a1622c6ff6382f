use octomap::pointcloud2::{datatype, Cloud, FieldRef};

struct Rng(u64);

impl Rng {
    fn next_u64(&mut self) -> u64 {
        let mut x = self.0;
        x ^= x << 13;
        x ^= x >> 7;
        x ^= x << 17;
        self.0 = x;
        x
    }

    fn below(&mut self, limit: u64) -> u64 {
        self.next_u64() % limit.max(1)
    }
}

const DATATYPES: [u8; 10] = [
    datatype::INT8,
    datatype::UINT8,
    datatype::INT16,
    datatype::UINT16,
    datatype::INT32,
    datatype::UINT32,
    datatype::FLOAT32,
    datatype::FLOAT64,
    0,
    200,
];

#[test]
fn hostile_geometry_is_rejected_or_survivable() {
    let mut rng = Rng(0xBADC0DE);

    for _ in 0..4000 {
        let point_step = rng.below(40) as u32;
        let width = rng.below(64) as u32;
        let height = rng.below(8) as u32;
        let row_step = rng.below(256) as u32;
        let blob_len = rng.below(512) as usize;

        let names = ["x", "y", "z"];
        let fields: Vec<FieldRef<'_>> = names
            .iter()
            .map(|name| {
                FieldRef::new(
                    name,
                    rng.below(48) as u32,
                    DATATYPES[rng.below(DATATYPES.len() as u64) as usize],
                    rng.below(3) as u32,
                )
            })
            .collect();

        let blob: Vec<u8> = (0..blob_len).map(|_| (rng.next_u64() & 0xFF) as u8).collect();

        let Ok(cloud) = Cloud::new(
            &fields,
            &blob,
            width,
            height,
            point_step,
            row_step,
            rng.below(2) == 0,
        ) else {
            continue;
        };

        let mut counted = 0usize;
        let mut it = cloud.iter();
        while it.next().is_some() {
            counted += 1;
        }
        assert_eq!(counted, cloud.len(), "iterator disagreed with len()");
    }
}

#[test]
fn a_field_offset_past_the_point_is_rejected() {
    let fields = [
        FieldRef::new("x", 0, datatype::FLOAT32, 1),
        FieldRef::new("y", 4, datatype::FLOAT32, 1),
        FieldRef::new("z", 12, datatype::FLOAT32, 1),
    ];
    let blob = vec![0u8; 120];
    assert!(Cloud::new(&fields, &blob, 10, 1, 12, 120, false).is_err());
}

#[test]
fn an_extreme_offset_does_not_wrap() {
    let fields = [
        FieldRef::new("x", u32::MAX, datatype::FLOAT64, 1),
        FieldRef::new("y", 4, datatype::FLOAT32, 1),
        FieldRef::new("z", 8, datatype::FLOAT32, 1),
    ];
    let blob = vec![0u8; 120];
    assert!(Cloud::new(&fields, &blob, 10, 1, 12, 120, false).is_err());
}

#[test]
fn pointcloud2_robustness_a_blob_shorter_than_the_declared_geometry_is_rejected() {
    let fields = [
        FieldRef::new("x", 0, datatype::FLOAT32, 1),
        FieldRef::new("y", 4, datatype::FLOAT32, 1),
        FieldRef::new("z", 8, datatype::FLOAT32, 1),
    ];
    let blob = vec![0u8; 12];
    assert!(Cloud::new(&fields, &blob, 1000, 1, 12, 12000, false).is_err());
}
