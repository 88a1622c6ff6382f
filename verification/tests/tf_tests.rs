use octomap::tf::{Resolution, TfBuffer, TfError};

/// A rigid transform for the tests: a rotation matrix and a translation.
#[derive(Debug, Clone, Copy, PartialEq)]
struct Rigid {
    r: [[f64; 3]; 3],
    t: [f64; 3],
}

impl Rigid {
    const IDENTITY: Rigid = Rigid {
        r: [[1.0, 0.0, 0.0], [0.0, 1.0, 0.0], [0.0, 0.0, 1.0]],
        t: [0.0, 0.0, 0.0],
    };

    fn translation(x: f64, y: f64, z: f64) -> Rigid {
        Rigid { t: [x, y, z], ..Rigid::IDENTITY }
    }

    fn yaw(angle: f64) -> Rigid {
        let (s, c) = angle.sin_cos();
        Rigid {
            r: [[c, -s, 0.0], [s, c, 0.0], [0.0, 0.0, 1.0]],
            t: [0.0, 0.0, 0.0],
        }
    }

    fn apply(&self, p: [f64; 3]) -> [f64; 3] {
        let mut out = self.t;
        for (i, o) in out.iter_mut().enumerate() {
            for (j, pj) in p.iter().enumerate() {
                *o += self.r[i][j] * pj;
            }
        }
        out
    }

    /// `self * other`: apply `other` first.
    fn compose(&self, other: &Rigid) -> Rigid {
        let mut r = [[0.0; 3]; 3];
        for (i, row) in r.iter_mut().enumerate() {
            for (j, cell) in row.iter_mut().enumerate() {
                for k in 0..3 {
                    *cell += self.r[i][k] * other.r[k][j];
                }
            }
        }
        Rigid { r, t: self.apply(other.t) }
    }

    fn inverse(&self) -> Rigid {
        let mut r = [[0.0; 3]; 3];
        for (i, row) in r.iter_mut().enumerate() {
            for (j, cell) in row.iter_mut().enumerate() {
                *cell = self.r[j][i];
            }
        }
        let rt = Rigid { r, t: [0.0; 3] };
        let t = rt.apply(self.t);
        Rigid { r, t: [-t[0], -t[1], -t[2]] }
    }
}

fn compose_chain(steps: &[Rigid]) -> Rigid {
    steps.iter().fold(Rigid::IDENTITY, |acc, step| step.compose(&acc))
}

fn resolve(tf: &TfBuffer<Rigid>, target: &str, source: &str) -> Result<Rigid, TfError> {
    match tf.lookup(target, source)? {
        Resolution::Identity => Ok(Rigid::IDENTITY),
        Resolution::Chains { source_up, target_up } => {
            Ok(compose_chain(&target_up).inverse().compose(&compose_chain(&source_up)))
        }
    }
}

fn close(a: [f64; 3], b: [f64; 3]) {
    for (got, want) in a.iter().zip(b.iter()) {
        assert!((got - want).abs() < 1e-4, "got {a:?}, want {b:?}");
    }
}

const ORIGIN: [f64; 3] = [0.0, 0.0, 0.0];

/// `map → odom → base_link → sensor`, the shape of a real robot's tree.
fn robot() -> TfBuffer<Rigid> {
    let mut tf = TfBuffer::new();
    tf.insert("map", "odom", Rigid::translation(1.0, 0.0, 0.0), 10, false);
    tf.insert("odom", "base_link", Rigid::translation(0.0, 2.0, 0.0), 10, false);
    tf.insert("base_link", "sensor", Rigid::translation(0.0, 0.0, 0.5), 0, true);
    tf
}

#[test]
fn a_frame_resolves_to_itself_as_the_identity() {
    let tf: TfBuffer<Rigid> = TfBuffer::new();
    assert_eq!(resolve(&tf, "map", "map"), Ok(Rigid::IDENTITY));
}

#[test]
fn a_direct_parent_child_lookup_is_the_stored_transform() {
    let tf = robot();
    let t = resolve(&tf, "map", "odom").unwrap();
    close(t.apply(ORIGIN), [1.0, 0.0, 0.0]);
}

#[test]
fn a_chain_composes_from_the_leaf_up() {
    let tf = robot();
    let t = resolve(&tf, "map", "sensor").unwrap();
    close(t.apply(ORIGIN), [1.0, 2.0, 0.5]);
    close(t.apply([1.0, 0.0, 0.0]), [2.0, 2.0, 0.5]);
}

#[test]
fn rotation_in_the_middle_of_a_chain_is_applied_to_what_hangs_below_it() {
    let mut tf = TfBuffer::new();
    tf.insert("map", "base", Rigid::translation(0.0, 0.0, 0.0), 0, true);
    tf.insert("base", "sensor", Rigid::yaw(std::f64::consts::FRAC_PI_2), 0, true);

    let t = resolve(&tf, "map", "sensor").unwrap();
    close(t.apply([1.0, 0.0, 0.0]), [0.0, 1.0, 0.0]);
}

#[test]
fn looking_up_the_other_way_gives_the_inverse() {
    let tf = robot();
    let forward = resolve(&tf, "map", "sensor").unwrap();
    let backward = resolve(&tf, "sensor", "map").unwrap();

    let p = [3.0, -1.0, 2.0];
    close(backward.apply(forward.apply(p)), p);
}

#[test]
fn siblings_resolve_through_their_common_ancestor() {
    let mut tf = TfBuffer::new();
    tf.insert("base", "left", Rigid::translation(0.0, 1.0, 0.0), 0, true);
    tf.insert("base", "right", Rigid::translation(0.0, -1.0, 0.0), 0, true);

    let t = resolve(&tf, "left", "right").unwrap();
    close(t.apply(ORIGIN), [0.0, -2.0, 0.0]);
}

#[test]
fn a_later_transform_replaces_an_earlier_one() {
    let mut tf = robot();
    tf.insert("map", "odom", Rigid::translation(5.0, 0.0, 0.0), 20, false);
    close(resolve(&tf, "map", "odom").unwrap().apply(ORIGIN), [5.0, 0.0, 0.0]);
}

#[test]
fn an_out_of_order_arrival_does_not_rewind_the_pose() {
    let mut tf = robot();
    tf.insert("map", "odom", Rigid::translation(99.0, 0.0, 0.0), 5, false);
    close(resolve(&tf, "map", "odom").unwrap().apply(ORIGIN), [1.0, 0.0, 0.0]);
}

#[test]
fn a_static_transform_wins_regardless_of_stamp() {
    let mut tf = robot();
    tf.insert("base_link", "sensor", Rigid::translation(0.0, 0.0, 9.0), -1, true);
    close(resolve(&tf, "base_link", "sensor").unwrap().apply(ORIGIN), [0.0, 0.0, 9.0]);
}

#[test]
fn an_unheard_of_frame_is_named_in_the_error() {
    let tf = robot();
    assert_eq!(
        resolve(&tf, "map", "camera_optical"),
        Err(TfError::UnknownFrame("camera_optical".to_string()))
    );
}

#[test]
fn two_disconnected_trees_report_the_gap_rather_than_a_wrong_answer() {
    let mut tf = robot();
    tf.insert("other_root", "floating", Rigid::IDENTITY, 0, true);
    assert_eq!(
        resolve(&tf, "map", "floating"),
        Err(TfError::Disconnected {
            target: "map".to_string(),
            source: "floating".to_string(),
        })
    );
}

#[test]
fn a_cycle_is_refused_instead_of_looping_forever() {
    let mut tf = TfBuffer::new();
    tf.insert("a", "b", Rigid::IDENTITY, 0, true);
    tf.insert("b", "c", Rigid::IDENTITY, 0, true);
    tf.insert("c", "a", Rigid::IDENTITY, 0, true);

    assert!(matches!(resolve(&tf, "a", "c"), Err(TfError::Cycle(_))));
}

#[test]
fn leading_slashes_are_normalized_away_on_both_sides() {
    let mut tf = TfBuffer::new();
    tf.insert("/map", "/sensor", Rigid::translation(1.0, 0.0, 0.0), 0, true);

    close(resolve(&tf, "map", "sensor").unwrap().apply(ORIGIN), [1.0, 0.0, 0.0]);
    close(resolve(&tf, "/map", "sensor").unwrap().apply(ORIGIN), [1.0, 0.0, 0.0]);
}

#[test]
fn the_nearest_common_ancestor_is_used_not_the_root() {
    let mut tf = robot();
    tf.insert("base_link", "left", Rigid::translation(0.0, 1.0, 0.0), 0, true);
    tf.insert("base_link", "right", Rigid::translation(0.0, -1.0, 0.0), 0, true);

    let t = resolve(&tf, "left", "right").unwrap();
    close(t.apply(ORIGIN), [0.0, -2.0, 0.0]);
    // Each chain stops at base_link rather than climbing to map.
    match tf.lookup("left", "right").unwrap() {
        Resolution::Chains { source_up, target_up } => {
            assert_eq!(source_up.len(), 1);
            assert_eq!(target_up.len(), 1);
        }
        Resolution::Identity => panic!("distinct frames do not resolve to the identity"),
    }
}

#[test]
fn the_buffer_counts_one_edge_per_child_frame() {
    let mut tf = robot();
    assert_eq!(tf.len(), 3);
    tf.insert("map", "odom", Rigid::translation(2.0, 0.0, 0.0), 30, false);
    assert_eq!(tf.len(), 3);
    tf.insert("/base_link", "/camera", Rigid::IDENTITY, 0, true);
    assert_eq!(tf.len(), 4);
}

#[test]
fn the_chain_is_reported_nearest_step_first() {
    let tf = robot();
    match tf.lookup("map", "sensor").unwrap() {
        Resolution::Chains { source_up, target_up } => {
            assert_eq!(target_up.len(), 0);
            assert_eq!(source_up.len(), 3);
            assert_eq!(source_up[0], Rigid::translation(0.0, 0.0, 0.5));
            assert_eq!(source_up[2], Rigid::translation(1.0, 0.0, 0.0));
        }
        Resolution::Identity => panic!("distinct frames do not resolve to the identity"),
    }
}

#[test]
fn reversing_a_lookup_swaps_the_chains() {
    let mut tf = robot();
    tf.insert("base_link", "left", Rigid::translation(0.0, 1.0, 0.0), 0, true);
    let forward = tf.lookup("left", "sensor").unwrap();
    let backward = tf.lookup("sensor", "left").unwrap();
    match (forward, backward) {
        (
            Resolution::Chains { source_up: a, target_up: b },
            Resolution::Chains { source_up: c, target_up: d },
        ) => {
            assert_eq!(a, d);
            assert_eq!(b, c);
            assert_eq!(a, vec![Rigid::translation(0.0, 0.0, 0.5)]);
            assert_eq!(b, vec![Rigid::translation(0.0, 1.0, 0.0)]);
        }
        _ => panic!("both lookups resolve through base_link"),
    }
}
