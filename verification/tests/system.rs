use shadow::schedule::ScheduleId;
use shadow::system::{SystemAccess, SystemGraph, SystemGraphs, SystemNode};

fn access(name: &'static str, reads: Vec<u64>, writes: Vec<u64>) -> SystemAccess<&'static str> {
    SystemAccess::new(name, reads, writes)
}

fn leaf(name: &'static str) -> SystemNode<&'static str> {
    SystemNode { access: access(name, vec![], vec![]), before: vec![], after: vec![] }
}

fn names(graph: &SystemGraph<&'static str>) -> Vec<&'static str> {
    let mut out = Vec::new();
    for i in 0..graph.len() {
        out.push(graph.system(i).unwrap().system);
    }
    out
}

#[test]
fn a_lone_system_takes_the_next_position() {
    let mut graph = SystemGraph::new();
    assert_eq!(graph.add_system(leaf("input")), 0);
    assert_eq!(graph.add_system(leaf("physics")), 1);
    assert_eq!(names(&graph), vec!["input", "physics"]);
    assert!(graph.dependencies().is_empty());
    assert!(graph.system(2).is_none());
}

#[test]
fn after_systems_come_first_and_before_systems_follow() {
    let mut graph = SystemGraph::new();
    let node = SystemNode {
        access: access("update", vec![], vec![]),
        before: vec![access("render", vec![], vec![])],
        after: vec![leaf("input"), leaf("time")],
    };
    let id = graph.add_system(node);
    assert_eq!(id, 2);
    assert_eq!(names(&graph), vec!["input", "time", "update", "render"]);
    assert_eq!(graph.dependencies(), &vec![(2, 0), (2, 1), (3, 2)]);
}

#[test]
fn nested_after_systems_are_placed_depth_first() {
    let mut graph = SystemGraph::new();
    graph.add_system(leaf("setup"));
    let inner = SystemNode {
        access: access("load", vec![], vec![]),
        before: vec![],
        after: vec![leaf("open")],
    };
    let node = SystemNode {
        access: access("start", vec![], vec![]),
        before: vec![access("report", vec![], vec![])],
        after: vec![inner],
    };
    let id = graph.add_system(node);
    assert_eq!(id, 3);
    assert_eq!(names(&graph), vec!["setup", "open", "load", "start", "report"]);
    assert_eq!(graph.dependencies(), &vec![(2, 1), (3, 2), (4, 3)]);
}

#[test]
fn a_write_read_elsewhere_is_a_dependency() {
    let writer = access("writer", vec![], vec![7]);
    let reader = access("reader", vec![7], vec![]);
    let other = access("other", vec![8], vec![9]);
    assert!(reader.is_dependency(&writer));
    assert!(writer.is_dependency(&reader));
    assert!(!reader.is_dependency(&other));
    assert!(!other.is_dependency(&reader));
}

#[test]
fn two_readers_do_not_wait_for_each_other() {
    let a = access("a", vec![1, 2], vec![]);
    let b = access("b", vec![2, 3], vec![]);
    assert!(!a.is_dependency(&b));
    assert!(!b.is_dependency(&a));
    let c = access("c", vec![], vec![3]);
    assert!(c.is_dependency(&c));
    assert!(b.is_dependency(&c));
}

#[test]
fn each_phase_gets_its_own_graph() {
    let update = ScheduleId(1);
    let render = ScheduleId(2);
    let mut graphs = SystemGraphs::new();
    assert!(graphs.get(&update).is_none());
    graphs.add_system(update, leaf("move"));
    graphs.add_system(render, leaf("draw"));
    let node = SystemNode {
        access: access("collide", vec![], vec![]),
        before: vec![],
        after: vec![leaf("gravity")],
    };
    graphs.add_system(update, node);
    let first = graphs.get(&update).unwrap();
    assert_eq!(names(first), vec!["move", "gravity", "collide"]);
    assert_eq!(first.dependencies(), &vec![(2, 1)]);
    let second = graphs.get(&render).unwrap();
    assert_eq!(names(second), vec!["draw"]);
    assert!(second.dependencies().is_empty());
    assert!(graphs.get(&ScheduleId(3)).is_none());
}

#[test]
fn every_dependency_points_at_an_earlier_system() {
    let mut graph = SystemGraph::new();
    graph.add_system(leaf("first"));
    let deep = SystemNode {
        access: access("middle", vec![], vec![]),
        before: vec![access("late", vec![], vec![]), access("later", vec![], vec![])],
        after: vec![leaf("a"), leaf("b")],
    };
    let node = SystemNode {
        access: access("top", vec![], vec![]),
        before: vec![access("last", vec![], vec![])],
        after: vec![deep, leaf("c")],
    };
    graph.add_system(node);
    assert_eq!(graph.len(), 9);
    for &(dependent, dependency) in graph.dependencies().iter() {
        assert!(dependency < dependent);
        assert!(dependency >= 1);
        assert!(dependent < graph.len());
    }
    assert_eq!(
        names(&graph),
        vec!["first", "a", "b", "middle", "late", "later", "c", "top", "last"]
    );
}
