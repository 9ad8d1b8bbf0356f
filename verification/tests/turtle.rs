use lgenerator::lsystem::generator::build_tree_sequence;
use lgenerator::lsystem::turtle3d::{
    cylinder_indices, leaf_indices, leaf_shade_step, plan_turtle, tree_mesh_indices,
    RotationAxis, TurtleCommand,
};

fn leaves(cmds: &[TurtleCommand]) -> Vec<(Option<usize>, usize)> {
    cmds.iter()
        .filter_map(|c| match c {
            TurtleCommand::Leaf { domain, variant } => Some((*domain, *variant)),
            _ => None,
        })
        .collect()
}

#[test]
fn plan_maps_each_symbol_to_its_command() {
    let cmds = plan_turtle("F+-&^/\\[]", 1);
    assert_eq!(
        cmds,
        vec![
            TurtleCommand::Forward,
            TurtleCommand::Rotate { axis: RotationAxis::Z, positive: true },
            TurtleCommand::Rotate { axis: RotationAxis::Z, positive: false },
            TurtleCommand::Rotate { axis: RotationAxis::X, positive: true },
            TurtleCommand::Rotate { axis: RotationAxis::X, positive: false },
            TurtleCommand::Rotate { axis: RotationAxis::Y, positive: true },
            TurtleCommand::Rotate { axis: RotationAxis::Y, positive: false },
            TurtleCommand::PushBranch,
            TurtleCommand::PopBranch,
        ]
    );
}

#[test]
fn plan_skips_symbols_without_meaning() {
    assert_eq!(plan_turtle("D12xF", 4), vec![TurtleCommand::Forward]);
    assert_eq!(plan_turtle("", 4), vec![]);
}

#[test]
fn plan_gives_each_branch_its_own_domain_and_restores_on_close() {
    let cmds = plan_turtle("J[J[J]J]J[J]J", 10);
    assert_eq!(
        leaves(&cmds),
        vec![
            (Some(0), 0),
            (Some(1), 1),
            (Some(2), 2),
            (Some(1), 3),
            (Some(0), 4),
            (Some(3), 5),
            (Some(0), 6),
        ]
    );
}

#[test]
fn plan_wraps_domains_around_their_number() {
    let cmds = plan_turtle("[J][J][J]", 2);
    assert_eq!(leaves(&cmds), vec![(Some(1), 0), (Some(0), 1), (Some(1), 2)]);
}

#[test]
fn plan_without_domains_gives_leaves_no_domain() {
    let cmds = plan_turtle("J[J]", 0);
    assert_eq!(leaves(&cmds), vec![(None, 0), (None, 1)]);
}

#[test]
fn plan_ignores_unmatched_close() {
    let cmds = plan_turtle("]J[J", 5);
    assert_eq!(leaves(&cmds), vec![(Some(0), 0), (Some(1), 1)]);
}

#[test]
fn plan_of_tree_counts_segments_and_leaves() {
    let word = build_tree_sequence(2);
    let cmds = plan_turtle(&word, 3);
    let forwards = cmds.iter().filter(|c| **c == TurtleCommand::Forward).count();
    assert_eq!(forwards, 25);
    let ls = leaves(&cmds);
    assert_eq!(ls.len(), 18);
    for (k, (d, v)) in ls.iter().enumerate() {
        assert_eq!(*v, k);
        assert!(d.unwrap() < 3);
    }
}

#[test]
fn cylinder_indices_close_the_ring() {
    let inds = cylinder_indices(0);
    assert_eq!(inds.len(), 48);
    assert_eq!(&inds[0..6], &[0, 2, 1, 2, 3, 1]);
    assert_eq!(&inds[42..48], &[14, 0, 15, 0, 1, 15]);
    let shifted = cylinder_indices(100);
    for (a, b) in inds.iter().zip(shifted.iter()) {
        assert_eq!(a + 100, *b);
    }
}

#[test]
fn leaf_indices_draw_both_faces() {
    assert_eq!(
        leaf_indices(10),
        vec![10, 11, 12, 10, 12, 13, 10, 12, 11, 10, 13, 12]
    );
}

#[test]
fn mesh_indices_number_vertices_in_drawing_order() {
    let cmds = vec![
        TurtleCommand::Forward,
        TurtleCommand::PushBranch,
        TurtleCommand::Leaf { domain: None, variant: 0 },
        TurtleCommand::PopBranch,
        TurtleCommand::Forward,
    ];
    let inds = tree_mesh_indices(&cmds).unwrap();
    assert_eq!(inds.len(), 48 + 12 + 48);
    assert_eq!(&inds[0..48], cylinder_indices(0).as_slice());
    assert_eq!(&inds[48..60], leaf_indices(16).as_slice());
    assert_eq!(&inds[60..108], cylinder_indices(20).as_slice());
    assert!(inds.iter().all(|&i| i < 36));
}

#[test]
fn mesh_of_grown_tree_has_expected_size() {
    let word = build_tree_sequence(3);
    let cmds = plan_turtle(&word, 2);
    let inds = tree_mesh_indices(&cmds).unwrap();
    assert_eq!(inds.len(), 57 * 125 - 9);
    let vertex_count = 19 * 125 - 3;
    assert!(inds.iter().all(|&i| (i as usize) < vertex_count));
    assert!(inds.contains(&((vertex_count - 1) as u32)));
}

#[test]
fn leaf_shade_steps_cycle_through_five() {
    let steps: Vec<i32> = (0..7).map(leaf_shade_step).collect();
    assert_eq!(steps, vec![-2, -1, 0, 1, 2, -2, -1]);
}
