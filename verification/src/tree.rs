//! The directory-tree model and the queue-driven size aggregation.
//!
//! A filesystem subtree is modelled as a [`Node`]: a regular file with a
//! size, a directory with an ordered list of children, or anything else
//! (symlinks, special files, unreadable entries), which contributes nothing.
//!
//! The aggregator mirrors the concurrent walker: a work queue seeded with
//! the root, drained one directory at a time; each drained directory adds
//! its regular files' sizes to a running total (with the wrapping addition
//! of an atomic counter) and appends its subdirectories to the queue. Which
//! pending directory is drained next is left to a schedule, standing for
//! the nondeterministic interleaving of a worker pool; the contract shows
//! the total is the same for every schedule.

use vstd::prelude::*;
use vstd::arithmetic::div_mod::lemma_small_mod;

verus! {

/// One past `u64::MAX`: the modulus of the wrapping 64-bit accumulator.
pub const WRAP: u128 = 0x1_0000_0000_0000_0000;

/// One node of a modelled directory tree.
pub enum Node {
    /// A regular file and its size in bytes.
    File { size: u64 },
    /// A directory and its immediate children, in enumeration order.
    Dir { children: Vec<Node> },
    /// Anything else: a symlink, a special file, an unreadable entry.
    Other,
}

/// The sum of the sizes of all regular files in the subtree rooted at `n`
/// (`n` itself included when it is a file): the reference single-threaded
/// walk that the aggregator is held to.
pub open spec fn subtree_size(n: Node) -> nat
    decreases n,
{
    match n {
        Node::File { size } => size as nat,
        Node::Dir { children } => seq_size(children@),
        Node::Other => 0,
    }
}

/// The sum of `subtree_size` over a sequence of siblings.
pub open spec fn seq_size(s: Seq<Node>) -> nat
    decreases s,
{
    if s.len() == 0 {
        0
    } else {
        subtree_size(s[0]) + seq_size(s.drop_first())
    }
}

/// What a traversal rooted at `n` reports: the subtree's file sizes when
/// `n` is a directory, and 0 otherwise — enumerating a non-directory root
/// fails silently, so a file or missing root contributes nothing.
pub open spec fn root_size(n: Node) -> nat {
    match n {
        Node::Dir { children } => subtree_size(n),
        _ => 0,
    }
}

/// The number of nodes in the subtree rooted at `n`; the walker's
/// termination measure.
pub open spec fn node_count(n: Node) -> nat
    decreases n,
{
    match n {
        Node::Dir { children } => 1 + seq_count(children@),
        _ => 1,
    }
}

/// The sum of `node_count` over a sequence of siblings.
pub open spec fn seq_count(s: Seq<Node>) -> nat
    decreases s,
{
    if s.len() == 0 {
        0
    } else {
        node_count(s[0]) + seq_count(s.drop_first())
    }
}

/// The size still owed by the pending entries of the work queue.
pub open spec fn pending_size(q: Seq<&Node>) -> nat
    decreases q.len(),
{
    if q.len() == 0 {
        0
    } else {
        root_size(*q[0]) + pending_size(q.drop_first())
    }
}

/// The node count still pending in the work queue.
pub open spec fn pending_count(q: Seq<&Node>) -> nat
    decreases q.len(),
{
    if q.len() == 0 {
        0
    } else {
        node_count(*q[0]) + pending_count(q.drop_first())
    }
}

proof fn lemma_pending_size_push(q: Seq<&Node>, x: &Node)
    ensures
        pending_size(q.push(x)) == pending_size(q) + root_size(*x),
    decreases q.len(),
{
    if q.len() == 0 {
        assert(q.push(x)[0] == x);
        assert(q.push(x).drop_first() =~= Seq::<&Node>::empty());
        assert(pending_size(Seq::<&Node>::empty()) == 0);
        assert(pending_size(q.push(x)) == root_size(*x));
    } else {
        assert(q.push(x)[0] == q[0]);
        assert(q.push(x).drop_first() =~= q.drop_first().push(x));
        lemma_pending_size_push(q.drop_first(), x);
        assert(pending_size(q.push(x)) == root_size(*q[0]) + pending_size(
            q.drop_first().push(x),
        ));
        assert(pending_size(q) == root_size(*q[0]) + pending_size(q.drop_first()));
    }
}

proof fn lemma_pending_count_push(q: Seq<&Node>, x: &Node)
    ensures
        pending_count(q.push(x)) == pending_count(q) + node_count(*x),
    decreases q.len(),
{
    if q.len() == 0 {
        assert(q.push(x)[0] == x);
        assert(q.push(x).drop_first() =~= Seq::<&Node>::empty());
        assert(pending_count(Seq::<&Node>::empty()) == 0);
        assert(pending_count(q.push(x)) == node_count(*x));
    } else {
        assert(q.push(x)[0] == q[0]);
        assert(q.push(x).drop_first() =~= q.drop_first().push(x));
        lemma_pending_count_push(q.drop_first(), x);
        assert(pending_count(q.push(x)) == node_count(*q[0]) + pending_count(
            q.drop_first().push(x),
        ));
        assert(pending_count(q) == node_count(*q[0]) + pending_count(q.drop_first()));
    }
}

proof fn lemma_pending_size_remove(q: Seq<&Node>, i: int)
    requires
        0 <= i < q.len(),
    ensures
        pending_size(q) == root_size(*q[i]) + pending_size(q.remove(i)),
    decreases q.len(),
{
    if i == 0 {
        assert(q.remove(0) =~= q.drop_first());
    } else {
        assert(q.remove(i).drop_first() =~= q.drop_first().remove(i - 1));
        lemma_pending_size_remove(q.drop_first(), i - 1);
    }
}

proof fn lemma_pending_count_remove(q: Seq<&Node>, i: int)
    requires
        0 <= i < q.len(),
    ensures
        pending_count(q) == node_count(*q[i]) + pending_count(q.remove(i)),
    decreases q.len(),
{
    if i == 0 {
        assert(q.remove(0) =~= q.drop_first());
    } else {
        assert(q.remove(i).drop_first() =~= q.drop_first().remove(i - 1));
        lemma_pending_count_remove(q.drop_first(), i - 1);
    }
}

proof fn lemma_node_count_pos(n: Node)
    ensures
        node_count(n) >= 1,
{
}

/// Drains the work queue with an explicit schedule standing in for worker
/// interleaving: at each step, entry `picks[step] % queue.len()` (0 once
/// the schedule is exhausted) is drained next. The total is the same for
/// every schedule — worker count and scheduling cannot change it.
pub fn compute_size_scheduled<'a>(root: &'a Node, picks: &Vec<usize>) -> (total: u64)
    ensures
        total as nat == root_size(*root) % (WRAP as nat),
        root_size(*root) <= u64::MAX ==> total as nat == root_size(*root),
{
    let mut queue: Vec<&'a Node> = Vec::new();
    queue.push(root);
    let mut total: u64 = 0;
    let mut step: usize = 0;
    proof {
        assert(queue@[0] == root);
        assert(queue@.drop_first() =~= Seq::<&Node>::empty());
        assert(pending_size(Seq::<&Node>::empty()) == 0);
        assert(pending_count(Seq::<&Node>::empty()) == 0);
        assert(pending_size(queue@) == root_size(*root));
    }
    while queue.len() > 0
        invariant
            step <= picks.len(),
            (total as nat + pending_size(queue@)) % (WRAP as nat) == root_size(*root) % (
            WRAP as nat),
        decreases pending_count(queue@),
    {
        let ghost q0 = queue@;
        let pick: usize = if step < picks.len() {
            let p = picks[step];
            step = step + 1;
            p
        } else {
            0
        };
        let i: usize = pick % queue.len();
        let node = queue.remove(i);
        proof {
            lemma_pending_size_remove(q0, i as int);
            lemma_pending_count_remove(q0, i as int);
            lemma_node_count_pos(*node);
        }
        let ghost count_budget = pending_count(q0) - 1;
        match node {
            Node::Dir { children } => {
                let ghost cs = children@;
                let mut j: usize = 0;
                proof {
                    assert(cs.subrange(0, cs.len() as int) =~= cs);
                }
                while j < children.len()
                    invariant
                        j <= children.len(),
                        cs == children@,
                        (total as nat + pending_size(queue@) + seq_size(
                            cs.subrange(j as int, cs.len() as int),
                        )) % (WRAP as nat) == root_size(*root) % (WRAP as nat),
                        pending_count(queue@) + seq_count(
                            cs.subrange(j as int, cs.len() as int),
                        ) <= count_budget,
                    decreases children.len() - j,
                {
                    let ghost rest = cs.subrange(j as int, cs.len() as int);
                    proof {
                        assert(rest.len() > 0);
                        assert(rest[0] == cs[j as int]);
                        assert(rest.drop_first() =~= cs.subrange(j as int + 1, cs.len() as int));
                        assert(seq_size(rest) == subtree_size(cs[j as int]) + seq_size(
                            rest.drop_first(),
                        ));
                        assert(seq_count(rest) == node_count(cs[j as int]) + seq_count(
                            rest.drop_first(),
                        ));
                    }
                    match &children[j] {
                        Node::File { size } => {
                            let ghost t0 = total as nat;
                            total = total.wrapping_add(*size);
                            proof {
                                lemma_wrapping_add_mod(t0, *size as nat);
                                lemma_add_inner_mod(
                                    t0 + *size as nat,
                                    pending_size(queue@) + seq_size(rest.drop_first()),
                                );
                            }
                        },
                        Node::Dir { .. } => {
                            let child: &'a Node = &children[j];
                            let ghost qb = queue@;
                            queue.push(child);
                            proof {
                                lemma_pending_size_push(qb, child);
                                lemma_pending_count_push(qb, child);
                            }
                        },
                        Node::Other => {},
                    }
                    j = j + 1;
                }
                proof {
                    assert(cs.subrange(cs.len() as int, cs.len() as int) =~= Seq::<
                        Node,
                    >::empty());
                }
            },
            _ => {},
        }
    }
    proof {
        if root_size(*root) <= u64::MAX {
            lemma_small_mod(root_size(*root), WRAP as nat);
        } else {
            lemma_small_mod(total as nat, WRAP as nat);
        }
    }
    total
}

/// `(a % WRAP + b) % WRAP == (a + b) % WRAP`: an addend may be reduced
/// before or after adding without changing the wrapped total.
pub(crate) proof fn lemma_add_inner_mod(a: nat, b: nat)
    ensures
        (a % (WRAP as nat) + b) % (WRAP as nat) == (a + b) % (WRAP as nat),
{
    vstd::arithmetic::div_mod::lemma_add_mod_noop(a as int, b as int, WRAP as int);
    vstd::arithmetic::div_mod::lemma_mod_twice(a as int, WRAP as int);
}

/// The wrapped sum of two 64-bit values is their sum reduced mod `WRAP`.
pub(crate) proof fn lemma_wrapping_add_mod(a: nat, b: nat)
    requires
        a < WRAP,
        b < WRAP,
    ensures
        vstd::wrapping::u64_specs::wrapping_add(a as u64, b as u64) as nat == (a + b) % (
        WRAP as nat),
{
    if a + b > u64::MAX {
        assert((a + b) % (WRAP as nat) == a + b - WRAP) by {
            vstd::arithmetic::div_mod::lemma_mod_sub_multiples_vanish(
                (a + b) as int,
                WRAP as int,
            );
            lemma_small_mod((a + b - WRAP) as nat, WRAP as nat);
        }
    } else {
        lemma_small_mod((a + b) as nat, WRAP as nat);
    }
}

/// Aggregates the size of the subtree at `root` by draining the work queue
/// front-first, the order a single worker follows. The result equals the
/// sum of the sizes of all regular files reachable from `root` (wrapped
/// into 64 bits if that sum overflows).
pub fn compute_size(root: &Node) -> (total: u64)
    ensures
        total as nat == root_size(*root) % (WRAP as nat),
        root_size(*root) <= u64::MAX ==> total as nat == root_size(*root),
{
    let picks: Vec<usize> = Vec::new();
    compute_size_scheduled(root, &picks)
}

/// A traversal's result is a function of the tree alone: two runs over the
/// same unmodified tree — whatever schedules their workers followed, and
/// however many workers each pool had — return the same total.
pub proof fn lemma_size_deterministic(t: Node, r1: u64, r2: u64)
    requires
        r1 as nat == root_size(t) % (WRAP as nat),
        r2 as nat == root_size(t) % (WRAP as nat),
    ensures
        r1 == r2,
{
}

/// An empty directory has size zero.
pub proof fn lemma_empty_directory_size(n: Node)
    requires
        n matches Node::Dir { children } && children@.len() == 0,
    ensures
        root_size(n) == 0,
{
}

} // verus!
