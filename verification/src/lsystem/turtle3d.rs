//! How the 3D turtle reads the tree word: which drawing command each symbol
//! stands for, and which domain colours each leaf. The drawing itself (the
//! floating-point geometry) is done by the caller, command by command.
use vstd::arithmetic::power::pow;
use vstd::prelude::*;

use crate::lsystem::generator::{
    lemma_tree_sequence_balanced, lemma_tree_sequence_counts, tree_sequence,
};
use crate::lsystem::words::{
    balanced, depth, depth_prefix, lemma_depth_prefix_agree, lemma_depth_push,
    lemma_occurrences_push, never_below_zero, occurrences,
};

verus! {

/// The axis that a rotation command turns the turtle about.
#[derive(Clone, Copy, Debug, PartialEq, Eq, Structural)]
pub enum RotationAxis {
    X,
    Y,
    Z,
}

/// One drawing command of the turtle.
#[derive(Clone, Copy, Debug, PartialEq, Eq, Structural)]
pub enum TurtleCommand {
    /// Draw a trunk segment and move to its end (`F`).
    Forward,
    /// Turn about `axis` by plus or minus the base angle (`+ - & ^ / \`).
    Rotate { axis: RotationAxis, positive: bool },
    /// Save the turtle and open a thinner, shorter branch (`[`).
    PushBranch,
    /// Return to the turtle saved by the matching `[`, if any (`]`).
    PopBranch,
    /// Draw a leaf coloured by domain `domain` (none when there are no
    /// domains), with shade variant `variant` (`J`).
    Leaf { domain: Option<usize>, variant: usize },
}

/// What the turtle remembers about branches while it reads a word: the
/// domain of the current branch, the domains of the enclosing branches, how
/// many branches were opened and how many leaves were drawn.
pub struct BranchBook {
    pub current: nat,
    pub saved: Seq<nat>,
    pub branches: nat,
    pub leaves: nat,
}

/// The book before the first symbol: the trunk, which has domain 0.
pub open spec fn initial_book() -> BranchBook {
    BranchBook { current: 0, saved: seq![], branches: 0, leaves: 0 }
}

/// The book after reading `c`. A new branch gets the next domain number; a
/// closing bracket returns to the enclosing branch's domain.
pub open spec fn book_step(b: BranchBook, c: char) -> BranchBook {
    if c == '[' {
        BranchBook {
            current: b.branches + 1,
            saved: b.saved.push(b.current),
            branches: b.branches + 1,
            leaves: b.leaves,
        }
    } else if c == ']' {
        if b.saved.len() > 0 {
            BranchBook {
                current: b.saved.last(),
                saved: b.saved.drop_last(),
                branches: b.branches,
                leaves: b.leaves,
            }
        } else {
            b
        }
    } else if c == 'J' {
        BranchBook { current: b.current, saved: b.saved, branches: b.branches, leaves: b.leaves + 1 }
    } else {
        b
    }
}

/// The book after reading all of `w`, starting from `b`.
pub open spec fn read_book(b: BranchBook, w: Seq<char>) -> BranchBook
    decreases w.len(),
{
    if w.len() == 0 {
        b
    } else {
        book_step(read_book(b, w.drop_last()), w.last())
    }
}

/// The command that `c` stands for when read with book `b`, among
/// `domain_count` domains; symbols without a meaning give none.
pub open spec fn command_for(b: BranchBook, c: char, domain_count: nat) -> Option<TurtleCommand> {
    if c == 'F' {
        Some(TurtleCommand::Forward)
    } else if c == '+' {
        Some(TurtleCommand::Rotate { axis: RotationAxis::Z, positive: true })
    } else if c == '-' {
        Some(TurtleCommand::Rotate { axis: RotationAxis::Z, positive: false })
    } else if c == '&' {
        Some(TurtleCommand::Rotate { axis: RotationAxis::X, positive: true })
    } else if c == '^' {
        Some(TurtleCommand::Rotate { axis: RotationAxis::X, positive: false })
    } else if c == '/' {
        Some(TurtleCommand::Rotate { axis: RotationAxis::Y, positive: true })
    } else if c == '\\' {
        Some(TurtleCommand::Rotate { axis: RotationAxis::Y, positive: false })
    } else if c == '[' {
        Some(TurtleCommand::PushBranch)
    } else if c == ']' {
        Some(TurtleCommand::PopBranch)
    } else if c == 'J' {
        Some(
            TurtleCommand::Leaf {
                domain: if domain_count == 0 {
                    None
                } else {
                    Some((b.current % domain_count) as usize)
                },
                variant: b.leaves as usize,
            },
        )
    } else {
        None
    }
}

/// The commands of the turtle for the whole word `w`, among `domain_count` domains.
pub open spec fn turtle_plan(w: Seq<char>, domain_count: nat) -> Seq<TurtleCommand>
    decreases w.len(),
{
    if w.len() == 0 {
        seq![]
    } else {
        let prev = turtle_plan(w.drop_last(), domain_count);
        match command_for(read_book(initial_book(), w.drop_last()), w.last(), domain_count) {
            Some(cmd) => prev.push(cmd),
            None => prev,
        }
    }
}

/// The book never counts more branches or leaves than symbols read, and
/// every domain it holds is one of the branches opened so far.
proof fn lemma_book_bounds(w: Seq<char>)
    ensures
        read_book(initial_book(), w).branches <= w.len(),
        read_book(initial_book(), w).leaves <= w.len(),
        read_book(initial_book(), w).current <= read_book(initial_book(), w).branches,
        forall|i: int|
            0 <= i < read_book(initial_book(), w).saved.len() ==> #[trigger] read_book(
                initial_book(),
                w,
            ).saved[i] <= read_book(initial_book(), w).branches,
    decreases w.len(),
{
    if w.len() > 0 {
        lemma_book_bounds(w.drop_last());
    }
}

/// Reads the tree word and decides the turtle's commands: the drawing
/// command of each symbol, and for each leaf its domain (its branch's number
/// modulo the number of domains, or none without domains) and its shade
/// variant (how many leaves came before it). Symbols without a meaning are
/// skipped.
pub fn plan_turtle(sequence: &str, domain_count: usize) -> (res: Vec<TurtleCommand>)
    requires
        sequence@.len() <= usize::MAX,
    ensures
        res@ == turtle_plan(sequence@, domain_count as nat),
{
    let mut commands: Vec<TurtleCommand> = Vec::new();
    let mut current_domain_idx: usize = 0;
    let mut domain_stack: Vec<usize> = Vec::new();
    let mut branch_counter: usize = 0;
    let mut leaf_counter: usize = 0;
    let mut read: usize = 0;
    assert(domain_stack@.map_values(|d: usize| d as nat) =~= Seq::<nat>::empty());

    for ch in it: sequence.chars()
        invariant
            it.seq() == sequence@,
            read == it.index(),
            read <= sequence@.len(),
            sequence@.len() <= usize::MAX,
            commands@ == turtle_plan(sequence@.take(read as int), domain_count as nat),
            read_book(initial_book(), sequence@.take(read as int)) == (BranchBook {
                current: current_domain_idx as nat,
                saved: domain_stack@.map_values(|d: usize| d as nat),
                branches: branch_counter as nat,
                leaves: leaf_counter as nat,
            }),
    {
        let ghost prefix = sequence@.take(read as int);
        let ghost next_prefix = sequence@.take(read + 1);
        proof {
            lemma_book_bounds(prefix);
            assert(next_prefix.drop_last() =~= prefix);
            assert(next_prefix.last() == ch);
        }
        if ch == 'F' {
            commands.push(TurtleCommand::Forward);
        } else if ch == '+' {
            commands.push(TurtleCommand::Rotate { axis: RotationAxis::Z, positive: true });
        } else if ch == '-' {
            commands.push(TurtleCommand::Rotate { axis: RotationAxis::Z, positive: false });
        } else if ch == '&' {
            commands.push(TurtleCommand::Rotate { axis: RotationAxis::X, positive: true });
        } else if ch == '^' {
            commands.push(TurtleCommand::Rotate { axis: RotationAxis::X, positive: false });
        } else if ch == '/' {
            commands.push(TurtleCommand::Rotate { axis: RotationAxis::Y, positive: true });
        } else if ch == '\\' {
            commands.push(TurtleCommand::Rotate { axis: RotationAxis::Y, positive: false });
        } else if ch == '[' {
            commands.push(TurtleCommand::PushBranch);
            domain_stack.push(current_domain_idx);
            branch_counter += 1;
            current_domain_idx = branch_counter;
        } else if ch == ']' {
            commands.push(TurtleCommand::PopBranch);
            if let Some(prev_domain) = domain_stack.pop() {
                current_domain_idx = prev_domain;
            }
        } else if ch == 'J' {
            let domain = if domain_count == 0 {
                None
            } else {
                Some(current_domain_idx % domain_count)
            };
            commands.push(TurtleCommand::Leaf { domain, variant: leaf_counter });
            leaf_counter += 1;
        }
        proof {
            assert(domain_stack@.map_values(|d: usize| d as nat) =~= read_book(
                initial_book(),
                next_prefix,
            ).saved);
        }
        read += 1;
    }
    assert(sequence@.take(read as int) =~= sequence@);
    commands
}

/// Reading `u` and then `v` is reading `u + v`.
pub proof fn lemma_read_book_concat(b: BranchBook, u: Seq<char>, v: Seq<char>)
    ensures
        read_book(b, u + v) == read_book(read_book(b, u), v),
    decreases v.len(),
{
    if v.len() == 0 {
        assert(u + v =~= u);
    } else {
        assert((u + v).drop_last() =~= u + v.drop_last());
        assert((u + v).last() == v.last());
        lemma_read_book_concat(b, u, v.drop_last());
    }
}

/// While a word never closes more branches than it opens, the book keeps
/// the enclosing branches it started with beneath those the word opened;
/// with all of them closed again it is back on the branch it started on, and
/// otherwise the first branch it opened sits on top of the starting one.
proof fn lemma_branch_nesting(b: BranchBook, w: Seq<char>)
    requires
        never_below_zero(w),
    ensures
        read_book(b, w).saved.len() == b.saved.len() + depth(w),
        read_book(b, w).saved.take(b.saved.len() as int) == b.saved,
        depth(w) == 0 ==> read_book(b, w).current == b.current,
        depth(w) > 0 ==> read_book(b, w).saved[b.saved.len() as int] == b.current,
    decreases w.len(),
{
    if w.len() == 0 {
        assert(b.saved.take(b.saved.len() as int) =~= b.saved);
    } else {
        let p = w.drop_last();
        let c = w.last();
        assert(w =~= p.push(c));
        assert forall|k: int| 0 <= k <= p.len() implies #[trigger] depth_prefix(p, k) >= 0 by {
            lemma_depth_prefix_agree(w, p, k);
        }
        lemma_branch_nesting(b, p);
        lemma_depth_push(p, c);
        assert(depth_prefix(w, w.len() as int) >= 0);
        let e = read_book(b, p);
        if c == '[' {
            assert(e.saved.push(e.current).take(b.saved.len() as int) =~= e.saved.take(
                b.saved.len() as int,
            ));
        } else if c == ']' {
            assert(e.saved.drop_last().take(b.saved.len() as int) =~= e.saved.take(
                b.saved.len() as int,
            ));
            if depth(w) == 0 {
                assert(e.saved.drop_last() =~= e.saved.take(b.saved.len() as int));
            }
        }
    }
}

/// A balanced stretch of the word leaves the turtle on the branch, and with
/// the enclosing branches, that it found: whatever it opens it closes again.
pub proof fn lemma_balanced_keeps_branch(b: BranchBook, w: Seq<char>)
    requires
        balanced(w),
    ensures
        read_book(b, w).current == b.current,
        read_book(b, w).saved == b.saved,
{
    lemma_branch_nesting(b, w);
}

/// After the whole grown tree the turtle is back on the trunk (domain 0)
/// with no branch left open.
pub proof fn lemma_tree_returns_to_trunk(d: nat)
    ensures
        read_book(initial_book(), tree_sequence(d)).current == 0,
        read_book(initial_book(), tree_sequence(d)).saved == Seq::<nat>::empty(),
{
    lemma_tree_sequence_balanced(d);
    lemma_balanced_keeps_branch(initial_book(), tree_sequence(d));
}

/// How many leaf commands `cmds` holds.
pub open spec fn leaf_count(cmds: Seq<TurtleCommand>) -> nat
    decreases cmds.len(),
{
    if cmds.len() == 0 {
        0
    } else {
        leaf_count(cmds.drop_last()) + if cmds.last() is Leaf {
            1nat
        } else {
            0nat
        }
    }
}

/// Leaves are numbered in reading order: the shade variant of every leaf is
/// the number of leaves drawn before it, and its domain is one of the
/// `domain_count` domains, or none exactly when there are no domains.
pub proof fn lemma_leaf_numbering(w: Seq<char>, domain_count: nat)
    requires
        w.len() <= usize::MAX,
        domain_count <= usize::MAX,
    ensures
        leaf_count(turtle_plan(w, domain_count)) == read_book(initial_book(), w).leaves,
        forall|i: int|
            #![trigger turtle_plan(w, domain_count)[i]]
            0 <= i < turtle_plan(w, domain_count).len() && turtle_plan(w, domain_count)[i] is Leaf
                ==> {
                &&& turtle_plan(w, domain_count)[i]->variant == leaf_count(
                    turtle_plan(w, domain_count).take(i),
                )
                &&& (turtle_plan(w, domain_count)[i]->domain is None <==> domain_count == 0)
                &&& (turtle_plan(w, domain_count)[i]->domain matches Some(d) ==> d < domain_count)
            },
    decreases w.len(),
{
    if w.len() > 0 {
        let p = w.drop_last();
        lemma_leaf_numbering(p, domain_count);
        lemma_book_bounds(p);
        let prev = turtle_plan(p, domain_count);
        let plan = turtle_plan(w, domain_count);
        assert forall|i: int|
            #![trigger plan[i]]
            0 <= i < plan.len() && plan[i] is Leaf implies {
            &&& plan[i]->variant == leaf_count(plan.take(i))
            &&& (plan[i]->domain is None <==> domain_count == 0)
            &&& (plan[i]->domain matches Some(d) ==> d < domain_count)
        } by {
            if i < prev.len() {
                assert(plan[i] == prev[i]);
                assert(plan.take(i) =~= prev.take(i));
            } else {
                assert(plan.take(i) =~= prev);
            }
        }
        if plan.len() > prev.len() {
            assert(plan.drop_last() =~= prev);
        }
    }
}

/// The `j`-th index of the trunk segment whose vertices start at `base`:
/// eight sides, each two triangles over the side's lower and upper vertices
/// (`base + 2 i` and `base + 2 i + 1`) and those of the next side around.
pub open spec fn cylinder_index(base: int, j: int) -> int {
    let side = j / 6;
    let curr = base + 2 * side;
    let next = base + 2 * ((side + 1) % 8);
    let k = j % 6;
    if k == 0 {
        curr
    } else if k == 1 {
        next
    } else if k == 2 {
        curr + 1
    } else if k == 3 {
        next
    } else if k == 4 {
        next + 1
    } else {
        curr + 1
    }
}

/// The indices of one trunk segment as a sequence.
pub open spec fn cylinder_index_seq(base: int) -> Seq<u32> {
    Seq::new(48, |j: int| cylinder_index(base, j) as u32)
}

/// The indices of one leaf: a quad of four vertices, drawn from both sides.
pub open spec fn leaf_index_seq(base: int) -> Seq<u32> {
    seq![
        base as u32, (base + 1) as u32, (base + 2) as u32,
        base as u32, (base + 2) as u32, (base + 3) as u32,
        base as u32, (base + 2) as u32, (base + 1) as u32,
        base as u32, (base + 3) as u32, (base + 2) as u32,
    ]
}

/// The triangle indices of the trunk segment whose 16 vertices start at `base`.
pub fn cylinder_indices(base: u32) -> (res: Vec<u32>)
    requires
        base + 16 <= u32::MAX + 1,
    ensures
        res@ == cylinder_index_seq(base as int),
        forall|j: int| 0 <= j < res@.len() ==> base <= #[trigger] res@[j] < base + 16,
{
    let sides: u32 = 8;
    let mut inds: Vec<u32> = Vec::new();
    for i in 0..sides
        invariant
            sides == 8,
            base + 16 <= u32::MAX + 1,
            inds@.len() == 6 * i,
            forall|j: int| 0 <= j < 6 * i ==> #[trigger] inds@[j] == cylinder_index(base as int, j),
    {
        let curr = base + i * 2;
        let next = base + ((i + 1) % sides) * 2;
        let ghost before = inds@;
        inds.push(curr);
        inds.push(next);
        inds.push(curr + 1);
        inds.push(next);
        inds.push(next + 1);
        inds.push(curr + 1);
        assert forall|j: int| 0 <= j < 6 * (i + 1) implies #[trigger] inds@[j] == cylinder_index(
            base as int,
            j,
        ) by {
            if j >= 6 * i {
                assert(j / 6 == i as int);
                assert(j % 6 == j - 6 * i);
            } else {
                assert(inds@[j] == before[j]);
            }
        }
    }
    assert(inds@ =~= cylinder_index_seq(base as int));
    assert forall|j: int| 0 <= j < inds@.len() implies base <= #[trigger] inds@[j] < base + 16 by {
        assert(0 <= j / 6 < 8);
    }
    inds
}

/// The triangle indices of the leaf whose 4 vertices start at `base`.
pub fn leaf_indices(base: u32) -> (res: Vec<u32>)
    requires
        base + 4 <= u32::MAX + 1,
    ensures
        res@ == leaf_index_seq(base as int),
        forall|j: int| 0 <= j < res@.len() ==> base <= #[trigger] res@[j] < base + 4,
{
    let res = vec![
        base, base + 1, base + 2,
        base, base + 2, base + 3,
        base, base + 2, base + 1,
        base, base + 3, base + 2,
    ];
    assert(res@ =~= leaf_index_seq(base as int));
    res
}

/// How many vertices the drawing of `cmd` adds: 16 for a trunk segment
/// (two rings of eight), 4 for a leaf, none for the other commands.
pub open spec fn command_vertices(cmd: TurtleCommand) -> nat {
    match cmd {
        TurtleCommand::Forward => 16,
        TurtleCommand::Leaf { .. } => 4,
        _ => 0,
    }
}

/// How many vertices the drawing of all of `cmds` makes.
pub open spec fn mesh_vertex_count(cmds: Seq<TurtleCommand>) -> nat
    decreases cmds.len(),
{
    if cmds.len() == 0 {
        0
    } else {
        mesh_vertex_count(cmds.drop_last()) + command_vertices(cmds.last())
    }
}

/// The triangle indices of the mesh drawn by `cmds`, each segment and leaf
/// indexing the vertices that its drawing appends.
pub open spec fn mesh_indices(cmds: Seq<TurtleCommand>) -> Seq<u32>
    decreases cmds.len(),
{
    if cmds.len() == 0 {
        seq![]
    } else {
        let prev = cmds.drop_last();
        let base = mesh_vertex_count(prev) as int;
        mesh_indices(prev) + match cmds.last() {
            TurtleCommand::Forward => cylinder_index_seq(base),
            TurtleCommand::Leaf { .. } => leaf_index_seq(base),
            _ => seq![],
        }
    }
}

/// Every index of the mesh refers to a vertex that the drawing makes.
pub proof fn lemma_mesh_indices_in_range(cmds: Seq<TurtleCommand>)
    requires
        mesh_vertex_count(cmds) <= u32::MAX + 1,
    ensures
        forall|i: int|
            0 <= i < mesh_indices(cmds).len() ==> #[trigger] mesh_indices(cmds)[i]
                < mesh_vertex_count(cmds),
    decreases cmds.len(),
{
    if cmds.len() > 0 {
        let prev = cmds.drop_last();
        lemma_mesh_indices_in_range(prev);
        let base = mesh_vertex_count(prev) as int;
        assert forall|i: int|
            0 <= i < mesh_indices(cmds).len() implies #[trigger] mesh_indices(cmds)[i]
                < mesh_vertex_count(cmds) by {
            let pm = mesh_indices(prev);
            if i >= pm.len() {
                let j = i - pm.len();
                match cmds.last() {
                    TurtleCommand::Forward => {
                        assert(0 <= j / 6 < 8);
                    },
                    _ => {},
                }
            }
        }
    }
}

/// The triangle indices of the tree mesh drawn by `commands`: for each
/// segment the indices of its 16 vertices, for each leaf those of its 4,
/// numbered in drawing order. None when the mesh has more vertices than
/// 32-bit indices can number.
pub fn tree_mesh_indices(commands: &Vec<TurtleCommand>) -> (res: Option<Vec<u32>>)
    ensures
        res is Some <==> mesh_vertex_count(commands@) <= u32::MAX + 1,
        res matches Some(v) ==> v@ == mesh_indices(commands@),
        res matches Some(v) ==> forall|i: int|
            0 <= i < v@.len() ==> #[trigger] v@[i] < mesh_vertex_count(commands@),
{
    let mut indices: Vec<u32> = Vec::new();
    let mut vertex_count: u64 = 0;
    for k in 0..commands.len()
        invariant
            vertex_count == mesh_vertex_count(commands@.take(k as int)),
            vertex_count <= u32::MAX + 1,
            indices@ == mesh_indices(commands@.take(k as int)),
    {
        let ghost prefix = commands@.take(k as int);
        let ghost next_prefix = commands@.take(k + 1);
        proof {
            assert(next_prefix.drop_last() =~= prefix);
        }
        match commands[k] {
            TurtleCommand::Forward => {
                if vertex_count + 16 > 0x1_0000_0000u64 {
                    proof {
                        lemma_vertex_count_grows(commands@, k + 1);
                    }
                    return None;
                }
                let mut segment = cylinder_indices(vertex_count as u32);
                indices.append(&mut segment);
                vertex_count = vertex_count + 16;
            },
            TurtleCommand::Leaf { .. } => {
                if vertex_count + 4 > 0x1_0000_0000u64 {
                    proof {
                        lemma_vertex_count_grows(commands@, k + 1);
                    }
                    return None;
                }
                let mut quad = leaf_indices(vertex_count as u32);
                indices.append(&mut quad);
                vertex_count = vertex_count + 4;
            },
            _ => {},
        }
        proof {
            assert(indices@ =~= mesh_indices(next_prefix));
        }
    }
    assert(commands@.take(commands.len() as int) =~= commands@);
    proof {
        lemma_mesh_indices_in_range(commands@);
    }
    Some(indices)
}

/// The vertex count of a prefix of the commands never exceeds that of all of them.
proof fn lemma_vertex_count_grows(cmds: Seq<TurtleCommand>, k: int)
    requires
        0 <= k <= cmds.len(),
    ensures
        mesh_vertex_count(cmds.take(k)) <= mesh_vertex_count(cmds),
    decreases cmds.len() - k,
{
    if k < cmds.len() {
        lemma_vertex_count_grows(cmds, k + 1);
        assert(cmds.take(k + 1).drop_last() =~= cmds.take(k));
    } else {
        assert(cmds.take(k) =~= cmds);
    }
}

/// The mesh of a word has 16 vertices and 48 indices per trunk segment `F`
/// and 4 vertices and 12 indices per leaf `J`.
pub proof fn lemma_plan_mesh_size(w: Seq<char>, domain_count: nat)
    ensures
        mesh_vertex_count(turtle_plan(w, domain_count)) == 16 * occurrences(w, 'F') + 4
            * occurrences(w, 'J'),
        mesh_indices(turtle_plan(w, domain_count)).len() == 48 * occurrences(w, 'F') + 12
            * occurrences(w, 'J'),
    decreases w.len(),
{
    if w.len() > 0 {
        let p = w.drop_last();
        let c = w.last();
        assert(w =~= p.push(c));
        lemma_plan_mesh_size(p, domain_count);
        lemma_occurrences_push(p, 'F', c);
        lemma_occurrences_push(p, 'J', c);
        let prev = turtle_plan(p, domain_count);
        let plan = turtle_plan(w, domain_count);
        if plan.len() > prev.len() {
            assert(plan.drop_last() =~= prev);
        }
    }
}

/// The mesh of the tree grown in `d` steps has `19 * 5^d - 3` vertices and
/// `57 * 5^d - 9` indices.
pub proof fn lemma_tree_mesh_size(d: nat, domain_count: nat)
    ensures
        mesh_vertex_count(turtle_plan(tree_sequence(d), domain_count)) == 19 * pow(5, d) - 3,
        mesh_indices(turtle_plan(tree_sequence(d), domain_count)).len() == 57 * pow(5, d) - 9,
{
    lemma_plan_mesh_size(tree_sequence(d), domain_count);
    lemma_tree_sequence_counts(d);
}

/// The brightness step of a leaf with shade variant `variant`: five steps
/// from -2 to 2, cycled; each step brightens the domain colour a little.
pub fn leaf_shade_step(variant: usize) -> (step: i32)
    ensures
        step == (variant % 5) as int - 2,
        -2 <= step <= 2,
{
    (variant % 5) as i32 - 2
}

/// Reading one more symbol appends that symbol's command, if it has one.
proof fn lemma_plan_push(w: Seq<char>, c: char, n: nat)
    ensures
        turtle_plan(w.push(c), n) == match command_for(read_book(initial_book(), w), c, n) {
            Some(cmd) => turtle_plan(w, n).push(cmd),
            None => turtle_plan(w, n),
        },
{
    assert(w.push(c).drop_last() =~= w);
}

/// What each symbol draws, whatever was read before it: `F` a segment, `+`
/// and `-` turns about Z, `&` and `^` about X, `/` and `\` about Y (the first
/// of each pair by plus the angle), `[` and `]` open and close a branch, and
/// a symbol with no meaning (other than the leaf `J`) draws nothing.
pub proof fn lemma_symbol_commands(w: Seq<char>, n: nat)
    ensures
        turtle_plan(w.push('F'), n) == turtle_plan(w, n).push(TurtleCommand::Forward),
        turtle_plan(w.push('+'), n) == turtle_plan(w, n).push(
            TurtleCommand::Rotate { axis: RotationAxis::Z, positive: true },
        ),
        turtle_plan(w.push('-'), n) == turtle_plan(w, n).push(
            TurtleCommand::Rotate { axis: RotationAxis::Z, positive: false },
        ),
        turtle_plan(w.push('&'), n) == turtle_plan(w, n).push(
            TurtleCommand::Rotate { axis: RotationAxis::X, positive: true },
        ),
        turtle_plan(w.push('^'), n) == turtle_plan(w, n).push(
            TurtleCommand::Rotate { axis: RotationAxis::X, positive: false },
        ),
        turtle_plan(w.push('/'), n) == turtle_plan(w, n).push(
            TurtleCommand::Rotate { axis: RotationAxis::Y, positive: true },
        ),
        turtle_plan(w.push('\\'), n) == turtle_plan(w, n).push(
            TurtleCommand::Rotate { axis: RotationAxis::Y, positive: false },
        ),
        turtle_plan(w.push('['), n) == turtle_plan(w, n).push(TurtleCommand::PushBranch),
        turtle_plan(w.push(']'), n) == turtle_plan(w, n).push(TurtleCommand::PopBranch),
        forall|c: char|
            c != 'F' && c != '+' && c != '-' && c != '&' && c != '^' && c != '/' && c != '\\' && c
                != '[' && c != ']' && c != 'J' ==> #[trigger] turtle_plan(w.push(c), n)
                == turtle_plan(w, n),
{
    lemma_plan_push(w, 'F', n);
    lemma_plan_push(w, '+', n);
    lemma_plan_push(w, '-', n);
    lemma_plan_push(w, '&', n);
    lemma_plan_push(w, '^', n);
    lemma_plan_push(w, '/', n);
    lemma_plan_push(w, '\\', n);
    lemma_plan_push(w, '[', n);
    lemma_plan_push(w, ']', n);
    assert forall|c: char|
        c != 'F' && c != '+' && c != '-' && c != '&' && c != '^' && c != '/' && c != '\\' && c
            != '[' && c != ']' && c != 'J' implies #[trigger] turtle_plan(w.push(c), n)
            == turtle_plan(w, n) by {
        lemma_plan_push(w, c, n);
    }
}

/// Reading a word opens one branch per `[` and draws one leaf per `J`.
pub proof fn lemma_book_counts(b: BranchBook, w: Seq<char>)
    ensures
        read_book(b, w).branches == b.branches + occurrences(w, '['),
        read_book(b, w).leaves == b.leaves + occurrences(w, 'J'),
    decreases w.len(),
{
    if w.len() > 0 {
        let p = w.drop_last();
        lemma_book_counts(b, p);
        assert(w =~= p.push(w.last()));
        lemma_occurrences_push(p, '[', w.last());
        lemma_occurrences_push(p, 'J', w.last());
    }
}

/// Every `[` opens a branch numbered one more than the branches opened so
/// far, and saves the branch it leaves on top of the enclosing ones.
pub proof fn lemma_open_branch(b: BranchBook, w: Seq<char>)
    ensures
        read_book(b, w.push('[')).current == b.branches + occurrences(w, '[') + 1,
        read_book(b, w.push('[')).saved == read_book(b, w).saved.push(read_book(b, w).current),
{
    lemma_book_counts(b, w);
    assert(w.push('[').drop_last() =~= w);
}

/// A leaf drawn right after the `k`-th `[` of the word (counting from one)
/// takes domain `k` modulo the number of domains, and its shade variant is
/// the number of leaves drawn before it.
pub proof fn lemma_leaf_after_open(w: Seq<char>, n: nat)
    requires
        w.len() + 2 <= usize::MAX,
        0 < n <= usize::MAX,
    ensures
        turtle_plan(w.push('[').push('J'), n).last() == (TurtleCommand::Leaf {
            domain: Some(((occurrences(w, '[') + 1) % n) as usize),
            variant: occurrences(w, 'J') as usize,
        }),
{
    lemma_open_branch(initial_book(), w);
    lemma_book_counts(initial_book(), w.push('['));
    lemma_occurrences_push(w, 'J', '[');
    lemma_plan_push(w.push('['), 'J', n);
}

} // verus!
