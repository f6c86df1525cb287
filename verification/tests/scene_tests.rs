use game_engine_rs::{
    id_order::{id_equals, id_precedes},
    scene::Scene,
    Entity, EntityContext,
};
use std::{cell::RefCell, rc::Rc};

struct Recorder {
    log: Rc<RefCell<Vec<String>>>,
    requests: Vec<Request>,
}

#[derive(Clone)]
enum Request {
    Spawn(&'static str),
    Despawn(&'static str),
    DespawnSelf,
}

impl Recorder {
    fn new(log: &Rc<RefCell<Vec<String>>>) -> Self {
        Recorder { log: log.clone(), requests: Vec::new() }
    }
}

impl Entity for Recorder {
    type Event = u8;
    type Step = u32;

    fn start(&mut self, ctx: &mut EntityContext<Recorder>) {
        self.log.borrow_mut().push(format!("{}:start", ctx.id()));
    }
    fn ready(&mut self, ctx: &mut EntityContext<Recorder>) {
        self.log.borrow_mut().push(format!("{}:ready", ctx.id()));
    }
    fn event(&mut self, ctx: &mut EntityContext<Recorder>, event: &u8) {
        self.log.borrow_mut().push(format!("{}:event{}", ctx.id(), event));
    }
    fn update(&mut self, ctx: &mut EntityContext<Recorder>, step: &u32) {
        self.log.borrow_mut().push(format!("{}:update{}", ctx.id(), step));
        for request in std::mem::take(&mut self.requests) {
            match request {
                Request::Spawn(id) => ctx.spawn(id, Recorder::new(&self.log)),
                Request::Despawn(id) => ctx.despawn(id),
                Request::DespawnSelf => ctx.despawn_self(),
            }
        }
    }
}

fn ids(scene: &Scene<Recorder>) -> Vec<String> {
    scene.iter().into_iter().map(|(id, _)| id.to_string()).collect()
}

#[test]
fn ids_are_kept_in_byte_order() {
    let log = Rc::new(RefCell::new(Vec::new()));
    let mut scene = Scene::default();
    for id in ["b", "ab", "a", "é", "B", "", "z"] {
        assert!(scene.spawn(id, Recorder::new(&log)));
    }
    assert_eq!(ids(&scene), ["", "B", "a", "ab", "b", "z", "é"]);
}

#[test]
fn id_comparison_matches_str_order() {
    let words = ["", "a", "aa", "ab", "b", "B", "é", "e", "z\u{0}", "z"];
    for a in words {
        for b in words {
            assert_eq!(id_precedes(a, b), a < b, "{a:?} < {b:?}");
            assert_eq!(id_equals(a, b), a == b, "{a:?} == {b:?}");
        }
    }
}

#[test]
fn new_entities_are_not_rendered_before_initialization() {
    let log = Rc::new(RefCell::new(Vec::new()));
    let mut scene = Scene::<Recorder>::default();
    scene.spawn("first", Recorder::new(&log));
    assert_eq!(scene.renderables().len(), 0);
    scene.update(&0);
    assert_eq!(scene.renderables().len(), 1);
    scene.spawn("late", Recorder::new(&log));
    assert_eq!(scene.renderables().len(), 1);
    scene.update(&0);
    assert_eq!(scene.renderables().len(), 2);
    scene.despawn("first");
    assert_eq!(scene.renderables().len(), 1);
    assert_eq!(scene.take_removed(), ["first"]);
    assert!(scene.take_removed().is_empty());
}

#[test]
fn events_reach_only_initialized_entities() {
    let log = Rc::new(RefCell::new(Vec::new()));
    let mut scene = Scene::default();
    scene.spawn("old", Recorder::new(&log));
    scene.update(&1);
    scene.spawn("new", Recorder::new(&log));
    scene.event(&7);
    assert_eq!(
        *log.borrow(),
        ["old:start", "old:ready", "old:update1", "old:event7"]
    );
    let rendered: Vec<&str> = scene.renderables().into_iter().map(|(id, _)| id).collect();
    assert_eq!(rendered, ["old"]);
}

#[test]
fn queued_requests_apply_in_order_next_frame() {
    let log = Rc::new(RefCell::new(Vec::new()));
    let mut scene = Scene::default();
    let mut driver = Recorder::new(&log);
    driver.requests = vec![
        Request::Spawn("x"),
        Request::Spawn("x"),
        Request::Despawn("missing"),
        Request::Despawn("keep"),
        Request::Spawn("keep"),
    ];
    scene.spawn("driver", driver);
    scene.spawn("keep", Recorder::new(&log));
    scene.update(&1);
    assert_eq!(ids(&scene), ["driver", "keep"]);
    assert!(scene.take_removed().is_empty());
    log.borrow_mut().clear();
    scene.update(&2);
    assert_eq!(ids(&scene), ["driver", "keep", "x"]);
    assert_eq!(scene.take_removed(), ["keep"]);
    assert_eq!(
        *log.borrow(),
        [
            "keep:start",
            "x:start",
            "keep:ready",
            "x:ready",
            "driver:update2",
            "keep:update2",
            "x:update2",
        ]
    );
}

#[test]
fn despawn_self_removes_after_the_frame() {
    let log = Rc::new(RefCell::new(Vec::new()));
    let mut scene = Scene::default();
    let mut brief = Recorder::new(&log);
    brief.requests = vec![Request::DespawnSelf];
    scene.spawn("brief", brief);
    scene.update(&1);
    assert!(scene.contains("brief"));
    scene.update(&1);
    assert!(!scene.contains("brief"));
    assert_eq!(scene.take_removed(), ["brief"]);
}

#[test]
fn get_mut_changes_only_the_named_entity() {
    let log = Rc::new(RefCell::new(Vec::new()));
    let mut scene = Scene::default();
    scene.spawn("a", Recorder::new(&log));
    scene.spawn("b", Recorder::new(&log));
    scene.get_mut("b").unwrap().requests = vec![Request::Spawn("c")];
    assert!(scene.get("a").unwrap().requests.is_empty());
    assert_eq!(scene.get("b").unwrap().requests.len(), 1);
    assert!(scene.get("c").is_none());
    let all = scene.iter();
    assert_eq!(all.len(), 2);
    assert_eq!(all[1].0, "b");
    assert_eq!(all[1].1.requests.len(), 1);
}
