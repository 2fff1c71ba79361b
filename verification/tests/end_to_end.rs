use simcore::memory_buffer::MemoryBuffer;
use simcore::scenegraph::{EntityBehavior, NodeID, Scenegraph};

type Matrix = [[f32; 4]; 4];

const IDENTITY: Matrix = [
    [1.0, 0.0, 0.0, 0.0],
    [0.0, 1.0, 0.0, 0.0],
    [0.0, 0.0, 1.0, 0.0],
    [0.0, 0.0, 0.0, 1.0],
];

/// `a` with `b` applied to it: entry (i, j) is the sum of `b[i][k] * a[k][j]`.
fn apply(a: Matrix, b: Matrix) -> Matrix {
    let mut out = [[0.0; 4]; 4];
    for i in 0..4 {
        for j in 0..4 {
            for k in 0..4 {
                out[i][j] += b[i][k] * a[k][j];
            }
        }
    }
    out
}

fn translation(t: [f32; 3]) -> Matrix {
    let mut m = IDENTITY;
    m[3][0] = t[0];
    m[3][1] = t[1];
    m[3][2] = t[2];
    m
}

fn scaling(s: [f32; 3]) -> Matrix {
    let mut m = IDENTITY;
    m[0][0] = s[0];
    m[1][1] = s[1];
    m[2][2] = s[2];
    m
}

fn rotation_x(theta: f32) -> Matrix {
    let (sin, cos) = theta.sin_cos();
    let mut m = IDENTITY;
    m[1][1] = cos;
    m[1][2] = sin;
    m[2][1] = -sin;
    m[2][2] = cos;
    m
}

fn rotation_y(theta: f32) -> Matrix {
    let (sin, cos) = theta.sin_cos();
    let mut m = IDENTITY;
    m[0][0] = cos;
    m[0][2] = -sin;
    m[2][0] = sin;
    m[2][2] = cos;
    m
}

fn rotation_z(theta: f32) -> Matrix {
    let (sin, cos) = theta.sin_cos();
    let mut m = IDENTITY;
    m[0][0] = cos;
    m[0][1] = sin;
    m[1][0] = -sin;
    m[1][1] = cos;
    m
}

/// The local transform: translate, then rotate about X, Y and Z in turn, then scale.
fn local(parent: Matrix, position: [f32; 3], rotation: [f32; 3], scale: [f32; 3]) -> Matrix {
    let mut m = apply(parent, translation(position));
    m = apply(m, rotation_x(rotation[0]));
    m = apply(m, rotation_y(rotation[1]));
    m = apply(m, rotation_z(rotation[2]));
    apply(m, scaling(scale))
}

#[derive(Clone, Debug, PartialEq)]
struct Body {
    mass: f32,
    velocity: [f32; 3],
    force: [f32; 3],
}

#[derive(Clone, Debug, PartialEq)]
struct Prop {
    position: [f32; 3],
    rotation: [f32; 3],
    scale: [f32; 3],
    body: Option<Body>,
    drawn: bool,
}

impl Default for Prop {
    fn default() -> Self {
        Prop {
            position: [0.0; 3],
            rotation: [0.0; 3],
            scale: [1.0; 3],
            body: None,
            drawn: false,
        }
    }
}

impl EntityBehavior for Prop {
    type Step = f32;
    type Matrix = Matrix;

    fn stepped(&self, dt: f32, parent: Matrix) -> (Self, Matrix) {
        let mut next = self.clone();
        if let Some(body) = next.body.as_mut() {
            if body.mass > 0.0 {
                for axis in 0..3 {
                    next.position[axis] += body.velocity[axis] * dt;
                    body.velocity[axis] += body.force[axis] / body.mass * dt;
                    body.force[axis] = 0.0;
                }
            }
        }
        let own = local(parent, next.position, next.rotation, next.scale);
        (next, own)
    }

    fn descriptor(&self) -> Option<&'static str> {
        if self.drawn {
            Some("prop")
        } else {
            None
        }
    }

    fn update_matrix(&mut self, dt: f32, parent: Matrix) -> Matrix {
        let (next, own) = self.stepped(dt, parent);
        *self = next;
        own
    }

    fn shader_metadata(&self) -> Option<&'static str> {
        self.descriptor()
    }
}

/// Packs the records of one tick, each under the camera.
fn pack(records: &[(NodeID, Matrix)], camera: Matrix) -> MemoryBuffer<f32, 64> {
    let mut buffer: MemoryBuffer<f32, 64> = MemoryBuffer::empty();
    for (id, world) in records {
        let view = apply(camera, *world);
        buffer.add_matrix(usize::from(*id) as f32, 0.0, 0.0, &view);
    }
    buffer.update_length();
    buffer
}

#[test]
fn one_tick_of_a_scaled_child_at_rest() {
    let mut graph: Scenegraph<Prop, 8> = Scenegraph::empty();
    let root = graph.root();
    let child = Prop {
        scale: [5.0; 3],
        body: Some(Body { mass: 100.0, velocity: [0.0; 3], force: [0.0; 3] }),
        drawn: true,
        ..Prop::default()
    };
    let (id, meta) = graph.add_entity(root, child);
    assert_eq!(meta, Some("prop"));

    let camera: Matrix = [
        [1.0, 0.0, 0.0, 0.0],
        [0.0, 2.0, 0.0, 0.0],
        [0.0, 0.0, 1.0, -1.0],
        [3.0, 4.0, 5.0, 1.0],
    ];
    let mut records = Vec::new();
    graph.recursive_update(root, 1.0, IDENTITY, &mut records);
    assert_eq!(records.len(), 1);
    assert_eq!(usize::from(records[0].0), usize::from(id));
    assert_eq!(records[0].1, scaling([5.0; 3]));

    let buffer = pack(&records, camera);
    let cells = buffer.cells();
    assert_eq!(cells.len(), 21);
    assert_eq!(&cells[..5], &[1.0, 1.0, 16.0, 0.0, 0.0]);
    let expected = apply(camera, scaling([5.0; 3]));
    assert_eq!(
        expected,
        [
            [5.0, 0.0, 0.0, 0.0],
            [0.0, 10.0, 0.0, 0.0],
            [0.0, 0.0, 5.0, -5.0],
            [3.0, 4.0, 5.0, 1.0],
        ]
    );
    let flat: Vec<f32> = expected.iter().flatten().copied().collect();
    assert_eq!(&cells[5..], flat.as_slice());

    let after = graph.load(id);
    assert_eq!(after.position, [0.0, 0.0, 0.0]);
    assert_eq!(after.body.unwrap().velocity, [0.0, 0.0, 0.0]);
}

#[test]
fn child_world_matrix_is_parent_world_then_translate_rotate_scale() {
    let mut graph: Scenegraph<Prop, 8> = Scenegraph::empty();
    let root = graph.root();
    let parent = Prop {
        position: [1.0, 2.0, 3.0],
        rotation: [0.5, 0.0, 0.0],
        drawn: true,
        ..Prop::default()
    };
    let child = Prop {
        position: [4.0, 0.0, -1.0],
        rotation: [0.1, 0.2, 0.3],
        scale: [2.0, 3.0, 4.0],
        drawn: true,
        ..Prop::default()
    };
    let (parent_id, _) = graph.add_entity(root, parent.clone());
    let (child_id, _) = graph.add_entity(parent_id, child.clone());
    let mut records = Vec::new();
    graph.recursive_update(root, 0.25, IDENTITY, &mut records);

    let parent_world = local(IDENTITY, parent.position, parent.rotation, parent.scale);
    let mut child_world = apply(parent_world, translation(child.position));
    child_world = apply(child_world, rotation_x(0.1));
    child_world = apply(child_world, rotation_y(0.2));
    child_world = apply(child_world, rotation_z(0.3));
    child_world = apply(child_world, scaling(child.scale));

    assert_eq!(records.len(), 2);
    assert_eq!(usize::from(records[0].0), usize::from(parent_id));
    assert_eq!(records[0].1, parent_world);
    assert_eq!(usize::from(records[1].0), usize::from(child_id));
    assert_eq!(records[1].1, child_world);

    let other_order = apply(apply(parent_world, scaling(child.scale)), translation(child.position));
    assert_ne!(records[1].1, other_order);
}

#[test]
fn a_moving_body_advances_by_velocity_times_step() {
    let mut graph: Scenegraph<Prop, 8> = Scenegraph::empty();
    let root = graph.root();
    let mover = Prop {
        body: Some(Body { mass: 2.0, velocity: [1.0, 0.0, -2.0], force: [0.0; 3] }),
        ..Prop::default()
    };
    let (id, _) = graph.add_entity(root, mover);
    let mut records = Vec::new();
    graph.recursive_update(root, 0.5, IDENTITY, &mut records);
    graph.recursive_update(root, 0.5, IDENTITY, &mut records);
    assert!(records.is_empty());
    assert_eq!(graph.load(id).position, [1.0, 0.0, -2.0]);
}
