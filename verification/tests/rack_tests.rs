use dirtydata::rack::{rack_step, remap_connections, snapshot_order, CableRack, DraggingCable, RackAction, RackCable, RackEvent, RackModule};

fn rack() -> CableRack {
    CableRack {
        modules: vec![
            RackModule { stable_id: 10, ports: vec![("out".to_string(), 2)] },
            RackModule { stable_id: 20, ports: vec![("in".to_string(), 1), ("out".to_string(), 1)] },
        ],
        cables: Vec::new(),
        dragging: None,
        selection: Vec::new(),
    }
}

#[test]
fn dropping_an_output_on_an_input_connects_them() {
    let mut r = rack();
    rack_step(&mut r, RackAction::StartDrag { module_idx: 1, port_name: "in".into(), is_output: false });
    assert_eq!(
        r.dragging,
        Some(DraggingCable { from_module: 1, from_port: "in".into(), is_from_output: false })
    );
    let ev = rack_step(&mut r, RackAction::EndDrag { target: Some((0, "out".into(), true)) });
    assert_eq!(r.dragging, None);
    assert_eq!(
        r.cables,
        vec![RackCable { from_module: 0, from_port: "out".into(), to_module: 1, to_port: "in".into(), color: 0, channels: 2 }]
    );
    assert_eq!(
        ev,
        vec![RackEvent::CableConnected { from_id: 10, from_port: "out".into(), to_id: 20, to_port: "in".into() }]
    );
}

#[test]
fn drops_that_cannot_connect_change_nothing_but_the_drag() {
    let mut r = rack();
    rack_step(&mut r, RackAction::StartDrag { module_idx: 0, port_name: "out".into(), is_output: true });
    assert!(rack_step(&mut r, RackAction::EndDrag { target: Some((1, "out".into(), true)) }).is_empty());
    rack_step(&mut r, RackAction::StartDrag { module_idx: 1, port_name: "out".into(), is_output: true });
    assert!(rack_step(&mut r, RackAction::EndDrag { target: Some((1, "in".into(), false)) }).is_empty());
    rack_step(&mut r, RackAction::StartDrag { module_idx: 0, port_name: "out".into(), is_output: true });
    assert!(rack_step(&mut r, RackAction::EndDrag { target: None }).is_empty());
    assert!(r.cables.is_empty());
    assert!(r.dragging.is_none());
    assert!(rack_step(&mut r, RackAction::EndDrag { target: Some((1, "in".into(), false)) }).is_empty());
}

#[test]
fn disconnecting_a_port_removes_its_cables() {
    let mut r = rack();
    for _ in 0..2 {
        rack_step(&mut r, RackAction::StartDrag { module_idx: 0, port_name: "out".into(), is_output: true });
        rack_step(&mut r, RackAction::EndDrag { target: Some((1, "in".into(), false)) });
    }
    assert_eq!(r.cables.len(), 2);
    assert_eq!(r.cables[1].color, 1);
    let ev = rack_step(&mut r, RackAction::DisconnectPort { module_idx: 1, port_name: "in".into() });
    assert!(r.cables.is_empty());
    assert_eq!(ev.len(), 2);
    assert_eq!(ev[0], RackEvent::CableDisconnected { to_id: 20, to_port: "in".into() });
}

#[test]
fn additive_selection_toggles() {
    let mut r = rack();
    rack_step(&mut r, RackAction::SelectModule { stable_id: 10, additive: false });
    rack_step(&mut r, RackAction::SelectModule { stable_id: 20, additive: true });
    assert_eq!(r.selection, vec![10, 20]);
    rack_step(&mut r, RackAction::SelectModule { stable_id: 10, additive: true });
    assert_eq!(r.selection, vec![20]);
    rack_step(&mut r, RackAction::SelectModule { stable_id: 10, additive: false });
    assert_eq!(r.selection, vec![10]);
}

#[test]
fn modules_run_after_the_modules_that_feed_them() {
    let order = snapshot_order(3, &vec![0, 1, 2], &vec![(2, 0)]);
    assert_eq!(order, vec![2, 0, 1]);
    assert_eq!(remap_connections(3, &order, &vec![(2, 0, 0, 1)]), vec![(0, 0, 1, 1)]);
    let looped = snapshot_order(2, &vec![0, 1], &vec![(0, 1), (1, 0)]);
    assert_eq!(looped, vec![1, 0]);
    assert!(snapshot_order(0, &vec![], &vec![]).is_empty());
}
