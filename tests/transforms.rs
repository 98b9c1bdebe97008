use dtransform::{
    convert_world_origin, sync_f64_f32, DTransformBundle, DTransformPlugin, DWorld, SimpleWorldOrigin,
    WorldOrigin,
};

#[derive(Clone, Copy, Debug, PartialEq)]
struct Tr {
    t: [f64; 3],
    r: [f64; 4],
    s: [f64; 3],
}

const ID: Tr = Tr { t: [0.0; 3], r: [0.0, 0.0, 0.0, 1.0], s: [1.0; 3] };

fn at(x: f64, y: f64, z: f64) -> Tr {
    Tr { t: [x, y, z], ..ID }
}

fn quat_mul(a: [f64; 4], b: [f64; 4]) -> [f64; 4] {
    let [ax, ay, az, aw] = a;
    let [bx, by, bz, bw] = b;
    [
        aw * bx + ax * bw + ay * bz - az * by,
        aw * by - ax * bz + ay * bw + az * bx,
        aw * bz + ax * by - ay * bx + az * bw,
        aw * bw - ax * bx - ay * by - az * bz,
    ]
}

fn rotate(q: [f64; 4], v: [f64; 3]) -> [f64; 3] {
    let p = quat_mul(quat_mul(q, [v[0], v[1], v[2], 0.0]), [-q[0], -q[1], -q[2], q[3]]);
    [p[0], p[1], p[2]]
}

fn compose(a: Tr, b: Tr) -> Tr {
    let scaled = [a.s[0] * b.t[0], a.s[1] * b.t[1], a.s[2] * b.t[2]];
    let rot = rotate(a.r, scaled);
    Tr {
        t: [a.t[0] + rot[0], a.t[1] + rot[1], a.t[2] + rot[2]],
        r: quat_mul(a.r, b.r),
        s: [a.s[0] * b.s[0], a.s[1] * b.s[1], a.s[2] * b.s[2]],
    }
}

fn spawn(w: &mut DWorld<Tr>, local: Tr, parent: Option<usize>) -> usize {
    w.spawn(DTransformBundle::from_transform(local, ID), parent)
}

#[test]
fn root_takes_local_transform() {
    let mut w = DWorld::new();
    let local = Tr { t: [1.5, -2.0, 3.25], r: [0.0, 0.0, 0.6, 0.8], s: [2.0, 1.0, 0.5] };
    let a = spawn(&mut w, local, None);
    assert_eq!(w.global(a), Some(ID));
    let p = w.propagate_transforms(&compose);
    assert_eq!(w.global(a), Some(local));
    assert_eq!(p.updated, vec![true]);
    assert_eq!(p.resolved, vec![true]);
}

#[test]
fn chain_of_depth_three_composes_exactly() {
    let mut w = DWorld::new();
    let root = Tr { t: [1.0, 0.0, 0.0], r: ID.r, s: [2.0, 2.0, 2.0] };
    let a = spawn(&mut w, root, None);
    let b = spawn(&mut w, at(1.0, 0.0, 0.0), Some(a));
    let c = spawn(&mut w, at(0.0, 1.0, 0.0), Some(b));
    let d = spawn(&mut w, at(0.0, 0.0, 1.0), Some(c));
    w.propagate_transforms(&compose);
    let wa = w.global(a).unwrap();
    let wb = w.global(b).unwrap();
    let wc = w.global(c).unwrap();
    let wd = w.global(d).unwrap();
    assert_eq!(wb, compose(wa, at(1.0, 0.0, 0.0)));
    assert_eq!(wc, compose(wb, at(0.0, 1.0, 0.0)));
    assert_eq!(wd, compose(wc, at(0.0, 0.0, 1.0)));
    assert_eq!(wd.t, [3.0, 2.0, 2.0]);
    assert_eq!(wd.s, [2.0, 2.0, 2.0]);
}

#[test]
fn children_listed_before_parents_are_still_composed() {
    let mut w = DWorld::new();
    let child = spawn(&mut w, at(1.0, 0.0, 0.0), Some(1));
    let parent = spawn(&mut w, at(5.0, 0.0, 0.0), None);
    let p = w.propagate_transforms(&compose);
    assert_eq!(w.global(parent).unwrap().t, [5.0, 0.0, 0.0]);
    assert_eq!(w.global(child).unwrap().t, [6.0, 0.0, 0.0]);
    assert_eq!(p.resolved, vec![true, true]);
}

#[test]
fn unchanged_frame_recomputes_nothing() {
    let mut w = DWorld::new();
    let a = spawn(&mut w, Tr { t: [0.1, 0.2, 0.3], r: [0.0, 0.6, 0.0, 0.8], s: [1.0; 3] }, None);
    let b = spawn(&mut w, at(0.7, 0.0, 0.0), Some(a));
    w.propagate_transforms(&compose);
    w.clear_changes();
    let before = (w.global(a).unwrap(), w.global(b).unwrap());
    let p = w.propagate_transforms(&compose);
    assert_eq!(p.updated, vec![false, false]);
    let after = (w.global(a).unwrap(), w.global(b).unwrap());
    assert_eq!(before.1.t.map(f64::to_bits), after.1.t.map(f64::to_bits));
    assert_eq!(before, after);
}

#[test]
fn changed_local_recomputes_only_its_subtree() {
    let mut w = DWorld::new();
    let a = spawn(&mut w, at(1.0, 0.0, 0.0), None);
    let b = spawn(&mut w, at(1.0, 0.0, 0.0), Some(a));
    let c = spawn(&mut w, at(1.0, 0.0, 0.0), Some(b));
    let other = spawn(&mut w, at(9.0, 0.0, 0.0), None);
    w.propagate_transforms(&compose);
    w.clear_changes();
    assert!(w.set_local(b, at(2.0, 0.0, 0.0)));
    let p = w.propagate_transforms(&compose);
    assert_eq!(p.updated, vec![false, true, true, false]);
    assert_eq!(w.global(c).unwrap().t, [4.0, 0.0, 0.0]);
    assert_eq!(w.global(other).unwrap().t, [9.0, 0.0, 0.0]);
}

#[test]
fn stale_world_transform_is_kept_when_nothing_is_flagged() {
    let mut w = DWorld::new();
    let a = spawn(&mut w, at(1.0, 0.0, 0.0), None);
    w.clear_changes();
    let p = w.propagate_transforms(&compose);
    assert_eq!(p.updated, vec![false]);
    assert_eq!(w.global(a), Some(ID));
}

#[test]
fn cycle_is_left_unresolved() {
    let mut w = DWorld::new();
    let a = spawn(&mut w, at(1.0, 0.0, 0.0), Some(1));
    let b = spawn(&mut w, at(2.0, 0.0, 0.0), Some(0));
    let c = spawn(&mut w, at(3.0, 0.0, 0.0), Some(b));
    let d = spawn(&mut w, at(4.0, 0.0, 0.0), None);
    let p = w.propagate_transforms(&compose);
    assert_eq!(p.resolved, vec![false, false, false, true]);
    assert_eq!(p.updated, vec![false, false, false, true]);
    assert_eq!(w.global(a), Some(ID));
    assert_eq!(w.global(c), Some(ID));
    assert_eq!(w.global(d).unwrap().t, [4.0, 0.0, 0.0]);
}

#[test]
fn dangling_parent_counts_as_root() {
    let mut w = DWorld::new();
    let a = spawn(&mut w, at(1.0, 2.0, 3.0), Some(42));
    let p = w.propagate_transforms(&compose);
    assert_eq!(w.global(a).unwrap().t, [1.0, 2.0, 3.0]);
    assert_eq!(p.resolved, vec![true]);
}

#[test]
fn despawned_parent_turns_child_into_root() {
    let mut w = DWorld::new();
    let a = spawn(&mut w, at(10.0, 0.0, 0.0), None);
    let b = spawn(&mut w, at(1.0, 0.0, 0.0), Some(a));
    w.propagate_transforms(&compose);
    w.clear_changes();
    assert_eq!(w.global(b).unwrap().t, [11.0, 0.0, 0.0]);
    assert!(w.despawn(a));
    assert!(!w.despawn(a));
    assert!(w.entities[b].unwrap().parent_changed);
    let p = w.propagate_transforms(&compose);
    assert_eq!(p.updated, vec![false, true]);
    assert_eq!(w.global(a), None);
    assert_eq!(w.global(b).unwrap().t, [1.0, 0.0, 0.0]);
}

#[test]
fn reparenting_recomputes_the_moved_entity() {
    let mut w = DWorld::new();
    let a = spawn(&mut w, at(10.0, 0.0, 0.0), None);
    let b = spawn(&mut w, at(20.0, 0.0, 0.0), None);
    let c = spawn(&mut w, at(1.0, 0.0, 0.0), Some(a));
    w.propagate_transforms(&compose);
    w.clear_changes();
    assert!(w.set_parent(c, Some(b)));
    let p = w.propagate_transforms(&compose);
    assert_eq!(p.updated, vec![false, false, true]);
    assert_eq!(w.global(c).unwrap().t, [21.0, 0.0, 0.0]);
}

#[test]
fn edits_of_missing_entities_are_refused() {
    let mut w: DWorld<Tr> = DWorld::new();
    assert!(!w.set_local(0, ID));
    assert!(!w.set_parent(3, None));
    assert!(!w.despawn(0));
    assert_eq!(w.local(0), None);
}

#[test]
fn bundle_from_transform_starts_at_identity() {
    let b = DTransformBundle::from_transform(at(1.0, 2.0, 3.0), ID);
    assert_eq!(b.local, at(1.0, 2.0, 3.0));
    assert_eq!(b.global, ID);
}

#[derive(Clone, Copy, Debug, PartialEq)]
struct Render {
    t: [f32; 3],
    r: [f32; 4],
    s: [f32; 3],
}

fn translation(t: Tr) -> [f64; 3] {
    t.t
}

fn project(t: Tr, o: [f64; 3]) -> Render {
    Render {
        t: [(t.t[0] - o[0]) as f32, (t.t[1] - o[1]) as f32, (t.t[2] - o[2]) as f32],
        r: t.r.map(|x| x as f32),
        s: t.s.map(|x| x as f32),
    }
}

#[test]
fn fixed_origin_is_used_as_given() {
    let mut w = DWorld::new();
    let a = spawn(&mut w, at(7.0, 0.0, 0.0), None);
    w.propagate_transforms(&compose);
    let mut so = SimpleWorldOrigin { origin: [0.0; 3] };
    let origin = WorldOrigin::Position([1.0e9, -4.0, 2.5]);
    assert!(convert_world_origin(&origin, &w, &mut so, &translation));
    assert_eq!(so.origin, [1.0e9, -4.0, 2.5]);
    w.set_local(a, at(-300.0, 0.0, 0.0));
    w.propagate_transforms(&compose);
    assert!(convert_world_origin(&origin, &w, &mut so, &translation));
    assert_eq!(so.origin, [1.0e9, -4.0, 2.5]);
}

#[test]
fn pinned_origin_follows_the_entity() {
    let mut w = DWorld::new();
    let root = spawn(&mut w, at(100.0, 0.0, 0.0), None);
    let e = spawn(&mut w, at(0.0, 1.0, 0.0), Some(root));
    w.propagate_transforms(&compose);
    let mut so = SimpleWorldOrigin { origin: [0.0; 3] };
    let origin = WorldOrigin::Entity(e);
    assert!(convert_world_origin(&origin, &w, &mut so, &translation));
    assert_eq!(so.origin, [100.0, 1.0, 0.0]);
    w.clear_changes();
    w.set_local(e, at(0.0, 1.0, 5.0));
    w.propagate_transforms(&compose);
    assert!(convert_world_origin(&origin, &w, &mut so, &translation));
    assert_eq!(so.origin, [100.0, 1.0, 5.0]);
}

#[test]
fn pinned_origin_keeps_last_value_when_entity_is_gone() {
    let mut w = DWorld::new();
    let e = spawn(&mut w, at(3.0, 4.0, 5.0), None);
    w.propagate_transforms(&compose);
    let mut so = SimpleWorldOrigin { origin: [0.0; 3] };
    let origin = WorldOrigin::Entity(e);
    assert!(convert_world_origin(&origin, &w, &mut so, &translation));
    assert!(w.despawn(e));
    w.propagate_transforms(&compose);
    assert!(!convert_world_origin(&origin, &w, &mut so, &translation));
    assert_eq!(so.origin, [3.0, 4.0, 5.0]);
    assert!(!convert_world_origin(&WorldOrigin::Entity(99), &w, &mut so, &translation));
    assert_eq!(so.origin, [3.0, 4.0, 5.0]);
}

#[test]
fn projection_subtracts_origin_before_narrowing() {
    let mut w = DWorld::new();
    let far = spawn(&mut w, at(1.0e12 + 0.25, -2.0e12, 0.0), None);
    let gone = spawn(&mut w, at(0.0, 0.0, 0.0), None);
    w.propagate_transforms(&compose);
    w.despawn(gone);
    let so = SimpleWorldOrigin { origin: [1.0e12, -2.0e12 + 1.5, 0.0] };
    let out = sync_f64_f32(&w, &so, &project);
    assert_eq!(out.len(), 2);
    let r = out[far].unwrap();
    assert_eq!(r.t, [0.25f32, -1.5f32, 0.0f32]);
    assert_eq!(r.r, [0.0, 0.0, 0.0, 1.0]);
    assert_eq!(r.s, [1.0, 1.0, 1.0]);
    assert!(out[gone].is_none());
    // Narrowing first would have lost the offset entirely.
    assert_ne!((1.0e12f64 + 0.25) as f32 - 1.0e12f64 as f32, 0.25f32);
}

#[test]
fn child_moves_to_render_origin_when_origin_moves_to_it() {
    let plugin = DTransformPlugin;
    let mut w = DWorld::new();
    let a = spawn(&mut w, ID, None);
    let b = spawn(&mut w, at(10.0, 0.0, 0.0), Some(a));
    let mut so = SimpleWorldOrigin { origin: [0.0; 3] };
    let f1 = plugin.run_frame(&mut w, &WorldOrigin::Position([0.0; 3]), &mut so, &compose, &translation, &project);
    assert_eq!(w.global(b).unwrap().t, [10.0, 0.0, 0.0]);
    assert_eq!(f1.render[b].unwrap().t, [10.0, 0.0, 0.0]);
    let f2 = plugin.run_frame(
        &mut w,
        &WorldOrigin::Position([10.0, 0.0, 0.0]),
        &mut so,
        &compose,
        &translation,
        &project,
    );
    assert!(f2.origin_resolved);
    let t = f2.render[b].unwrap().t;
    assert!(t.iter().all(|x| x.abs() < 1.0e-6));
    assert_eq!(f2.propagation.updated, vec![false, false]);
}

#[test]
fn static_entities_shift_opposite_to_pinned_origin() {
    let plugin = DTransformPlugin;
    let mut w = DWorld::new();
    let e = spawn(&mut w, at(100.0, 0.0, 0.0), None);
    let s1 = spawn(&mut w, at(3.0, 0.0, 0.0), None);
    let s2 = spawn(&mut w, at(0.0, 2.0, 0.0), Some(s1));
    let origin = WorldOrigin::Entity(e);
    let mut so = SimpleWorldOrigin { origin: [0.0; 3] };
    let f1 = plugin.run_frame(&mut w, &origin, &mut so, &compose, &translation, &project);
    let world_before = (w.global(s1).unwrap(), w.global(s2).unwrap());
    assert_eq!(f1.render[s1].unwrap().t, [-97.0, 0.0, 0.0]);
    assert_eq!(f1.render[s2].unwrap().t, [-97.0, 2.0, 0.0]);
    assert!(w.set_local(e, at(105.0, 0.0, 0.0)));
    let f2 = plugin.run_frame(&mut w, &origin, &mut so, &compose, &translation, &project);
    assert_eq!(so.origin, [105.0, 0.0, 0.0]);
    assert_eq!(f2.render[s1].unwrap().t, [-102.0, 0.0, 0.0]);
    assert_eq!(f2.render[s2].unwrap().t, [-102.0, 2.0, 0.0]);
    assert_eq!(f2.render[e].unwrap().t, [0.0, 0.0, 0.0]);
    assert_eq!((w.global(s1).unwrap(), w.global(s2).unwrap()), world_before);
    assert_eq!(f2.propagation.updated, vec![true, false, false]);
}

#[test]
fn frame_clears_change_flags() {
    let plugin = DTransformPlugin;
    let mut w = DWorld::new();
    let a = spawn(&mut w, at(1.0, 0.0, 0.0), None);
    let mut so = SimpleWorldOrigin { origin: [0.0; 3] };
    plugin.run_frame(&mut w, &WorldOrigin::Position([0.0; 3]), &mut so, &compose, &translation, &project);
    let e = w.entities[a].unwrap();
    assert!(!e.local_changed && !e.parent_changed);
}

#[test]
fn dangling_parents_are_reported() {
    let mut w = DWorld::new();
    let a = spawn(&mut w, ID, None);
    let b = spawn(&mut w, ID, Some(a));
    let c = spawn(&mut w, ID, Some(17));
    let d = spawn(&mut w, ID, Some(a));
    assert_eq!(w.dangling_parents(), vec![c]);
    w.despawn(a);
    assert_eq!(w.dangling_parents(), vec![b, c, d]);
}

#[test]
fn dangling_parent_is_a_root_once_its_edge_is_flagged() {
    let mut w = DWorld::new();
    let a = spawn(&mut w, at(10.0, 0.0, 0.0), None);
    let b = spawn(&mut w, at(1.0, 0.0, 0.0), Some(a));
    let other = spawn(&mut w, at(5.0, 0.0, 0.0), None);
    w.propagate_transforms(&compose);
    w.clear_changes();
    assert_eq!(w.global(b).unwrap().t, [11.0, 0.0, 0.0]);
    // The parent slot disappears and the child's edge is not flagged:
    // nothing about the child changed as far as propagation knows.
    w.entities[a] = None;
    let p = w.propagate_transforms(&compose);
    assert_eq!(p.updated, vec![false, false, false]);
    assert_eq!(w.global(b).unwrap().t, [11.0, 0.0, 0.0]);
    // Flagging the edge makes it a root for one pass, then it is skipped.
    let mut e = w.entities[b].unwrap();
    e.parent_changed = true;
    w.entities[b] = Some(e);
    let p = w.propagate_transforms(&compose);
    assert_eq!(p.updated, vec![false, true, false]);
    assert_eq!(w.global(b).unwrap().t, [1.0, 0.0, 0.0]);
    w.clear_changes();
    let p = w.propagate_transforms(&compose);
    assert_eq!(p.updated, vec![false, false, false]);
    assert_eq!(w.global(b).unwrap().t, [1.0, 0.0, 0.0]);
    assert_eq!(w.global(other).unwrap().t, [5.0, 0.0, 0.0]);
}

#[test]
fn origin_starts_fixed_at_zero() {
    let origin = WorldOrigin::fixed_at_zero([0.0f64; 3]);
    assert!(matches!(origin, WorldOrigin::Position(p) if p == [0.0; 3]));
    let resolved = SimpleWorldOrigin::at_zero([0.0f64; 3]);
    assert_eq!(resolved.origin, [0.0; 3]);
}
