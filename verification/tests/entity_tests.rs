use game_engine_rs::{
    geometry::MeshError, model::ModelVertex, scene::Scene, Color, Entity, EntityContext, Mesh,
    ThreeD, TwoD,
};
use std::{cell::RefCell, rc::Rc};

/// Input events as these tests deliver them.
#[derive(Clone, Copy)]
enum WindowEvent {
    RedrawRequested,
}

struct Probe {
    log: Rc<RefCell<Vec<String>>>,
    elapsed: f32,
    spawn_child: bool,
}

impl Probe {
    fn new(log: &Rc<RefCell<Vec<String>>>) -> Self {
        Self {
            log: log.clone(),
            elapsed: 0.0,
            spawn_child: false,
        }
    }
    fn record(&self, ctx: &EntityContext<Probe>, hook: &str) {
        self.log.borrow_mut().push(format!("{}:{hook}", ctx.id()));
    }
}

impl Entity for Probe {
    type Event = WindowEvent;
    type Step = f32;

    fn start(&mut self, ctx: &mut EntityContext<Probe>) {
        self.record(ctx, "start");
    }
    fn ready(&mut self, ctx: &mut EntityContext<Probe>) {
        self.record(ctx, "ready");
    }
    fn event(&mut self, ctx: &mut EntityContext<Probe>, _: &WindowEvent) {
        self.record(ctx, "event");
    }
    fn update(&mut self, ctx: &mut EntityContext<Probe>, dt: &f32) {
        self.record(ctx, "update");
        self.elapsed += *dt;
        if self.spawn_child {
            ctx.spawn("child", Probe::new(&self.log));
            ctx.despawn_self();
        }
    }
}

fn unit_circle_ring() -> Vec<[u32; 2]> {
    (0..=32)
        .map(|i| {
            let angle = (i as f32 / 32.0) * std::f32::consts::TAU;
            [angle.cos().to_bits(), angle.sin().to_bits()]
        })
        .collect()
}

/// The built-in 2D shapes, told apart as the scene hands them back.
enum Shape {
    Circle(Mesh<TwoD>),
    Rectangle(Mesh<TwoD>),
}

impl Entity for Shape {
    type Event = WindowEvent;
    type Step = f32;

    fn start(&mut self, _ctx: &mut EntityContext<Shape>) {}

    fn ready(&mut self, _ctx: &mut EntityContext<Shape>) {}

    fn event(&mut self, _ctx: &mut EntityContext<Shape>, _event: &WindowEvent) {}

    fn update(&mut self, _ctx: &mut EntityContext<Shape>, _step: &f32) {}
}

fn circle() -> Shape {
    Shape::Circle(Mesh::<TwoD>::circle_from_ring(&unit_circle_ring()))
}

fn rectangle(width: f32, height: f32) -> Shape {
    Shape::Rectangle(Mesh::<TwoD>::rectangle_from_corner(
        width.to_bits(),
        (0.0 - height).to_bits(),
    ))
}

#[test]
fn lifecycle_initializes_once_before_updates_and_events() {
    let log = Rc::new(RefCell::new(Vec::new()));
    let mut scene = Scene::<Probe>::default();
    scene.spawn("b", Probe::new(&log));
    scene.spawn("a", Probe::new(&log));
    scene.event(&WindowEvent::RedrawRequested);
    assert!(log.borrow().is_empty());
    scene.update(&0.25);
    scene.event(&WindowEvent::RedrawRequested);
    scene.update(&0.5);
    assert_eq!(
        *log.borrow(),
        [
            "a:start", "b:start", "a:ready", "b:ready", "a:update", "b:update", "a:event",
            "b:event", "a:update", "b:update",
        ]
    );
    assert_eq!(scene.get("a").unwrap().elapsed, 0.75);
}

#[test]
fn commands_from_callbacks_wait_until_next_frame() {
    let log = Rc::new(RefCell::new(Vec::new()));
    let mut scene = Scene::<Probe>::default();
    let mut parent = Probe::new(&log);
    parent.spawn_child = true;
    scene.spawn("parent", parent);
    scene.update(&0.1);
    assert!(scene.contains("parent"));
    assert!(!scene.contains("child"));
    scene.update(&0.1);
    assert!(!scene.contains("parent"));
    assert!(scene.contains("child"));
    assert_eq!(
        *log.borrow(),
        [
            "parent:start",
            "parent:ready",
            "parent:update",
            "child:start",
            "child:ready",
            "child:update",
        ]
    );
}

#[test]
fn duplicate_ids_preserve_existing_objects_and_despawn_allows_reuse() {
    let mut scene = Scene::<Shape>::default();
    assert!(scene.spawn(&String::from("shape"), circle()));
    assert!(!scene.spawn("shape", rectangle(2.0, 2.0)));
    assert!(matches!(scene.get("shape"), Some(Shape::Circle(_))));
    assert!(!matches!(scene.get("shape"), Some(Shape::Rectangle(_))));
    assert!(scene.get_mut("missing").is_none());
    assert!(scene.despawn("shape"));
    assert!(!scene.despawn("shape"));
    assert!(scene.spawn("shape", rectangle(2.0, 2.0)));
}

/// A box entity with a position along x, a color and a visibility switch.
struct Cube {
    mesh: Mesh<ThreeD>,
    x: f32,
    color: Color,
    visible: bool,
}

impl Entity for Cube {
    type Event = WindowEvent;
    type Step = f32;

    fn start(&mut self, _ctx: &mut EntityContext<Cube>) {}

    fn ready(&mut self, _ctx: &mut EntityContext<Cube>) {}

    fn event(&mut self, _ctx: &mut EntityContext<Cube>, _event: &WindowEvent) {}

    fn update(&mut self, _ctx: &mut EntityContext<Cube>, _step: &f32) {}
}

impl Cube {
    fn new(width: f32, height: f32, length: f32) -> Self {
        Cube {
            mesh: Mesh::<ThreeD>::cube_from_half_extents(
                (width * 0.5).to_bits(),
                (height * 0.5).to_bits(),
                (length * 0.5).to_bits(),
            ),
            x: 0.0,
            color: Color::White,
            visible: true,
        }
    }

    fn render_data(&self) -> Option<(Mesh<ThreeD>, f32, Color)> {
        self.visible.then(|| (self.mesh.clone(), self.x, self.color))
    }
}

#[test]
fn shapes_return_current_appearance_and_support_visibility() {
    let mut scene = Scene::<Cube>::default();
    scene.spawn("cube", Cube::new(2.0, 4.0, 6.0));
    let cube = scene.get_mut("cube").unwrap();
    cube.color = Color::Blue;
    cube.x = 5.0;
    let (mesh, x, color) = cube.render_data().unwrap();
    assert_eq!(color, Color::Blue);
    assert_eq!(x, 5.0);
    assert_eq!(mesh.vertices().len(), 24);
    assert_eq!(mesh.indices().len(), 36);
    assert_eq!(
        mesh.vertices()[0].position,
        [(-1.0f32).to_bits(), (-2.0f32).to_bits(), 3.0f32.to_bits()]
    );
    assert_eq!(
        mesh.vertices().as_ptr(),
        cube.render_data().unwrap().0.vertices().as_ptr()
    );
    cube.visible = false;
    assert!(cube.render_data().is_none());
}

#[test]
fn custom_mesh_rejects_invalid_geometry() {
    let vertex = ModelVertex {
        position: [0.0f32.to_bits(); 3],
        tex_coords: [0.0f32.to_bits(); 2],
        normal: [0.0f32.to_bits(); 3],
    };
    assert!(Mesh::<TwoD>::new(vec![], vec![0, 0, 0]).is_err());
    assert!(Mesh::<TwoD>::new(vec![vertex], vec![0, 0]).is_err());
    assert!(Mesh::<TwoD>::new(vec![vertex], vec![0, 1, 0]).is_err());
    let mut invalid = vertex;
    invalid.position[0] = f32::NAN.to_bits();
    assert!(Mesh::<TwoD>::new(vec![invalid], vec![0, 0, 0]).is_err());
    assert!(Mesh::<TwoD>::new(vec![vertex], vec![0, 0, 0]).is_ok());
}

#[test]
fn mesh_errors_name_the_first_rule_broken() {
    let vertex = ModelVertex {
        position: [0; 3],
        tex_coords: [0; 2],
        normal: [0; 3],
    };
    let mut infinite = vertex;
    infinite.normal[2] = f32::INFINITY.to_bits();
    assert_eq!(
        Mesh::<TwoD>::new(vec![], vec![7]).err(),
        Some(MeshError::NoVertices)
    );
    assert_eq!(
        Mesh::<TwoD>::new(vec![vertex], vec![]).err(),
        Some(MeshError::IncompleteTriangles)
    );
    assert_eq!(
        Mesh::<TwoD>::new(vec![infinite], vec![0, 0, 3]).err(),
        Some(MeshError::IndexOutOfBounds)
    );
    assert_eq!(
        Mesh::<TwoD>::new(vec![vertex, infinite], vec![0, 1, 1]).err(),
        Some(MeshError::NonFiniteVertex)
    );
    let mut largest = vertex;
    largest.position[1] = f32::MAX.to_bits();
    let mesh = Mesh::<TwoD>::new(vec![vertex, largest], vec![0, 1, 1, 1, 0, 0]).unwrap();
    assert_eq!(mesh.vertices(), &[vertex, largest]);
    assert_eq!(mesh.indices(), &[0, 1, 1, 1, 0, 0]);
}
