use vstd::prelude::*;
use crate::node::{Ast, NodeValue, is_block, can_contain};

verus! {

/// The identity of a node: its index in the arena that holds it.
#[derive(Debug, Clone, Copy, PartialEq, Eq, Structural)]
pub struct Node {
    pub id: usize,
}

/// One arena entry: a node's data and its links to its relatives.
#[derive(Debug)]
pub struct Slot {
    pub data: Ast,
    pub parent: Option<usize>,
    pub previous_sibling: Option<usize>,
    pub next_sibling: Option<usize>,
    pub first_child: Option<usize>,
    pub last_child: Option<usize>,
}

/// Owner of every node of a tree; nodes refer to each other by index.
pub struct Arena {
    slots: Vec<Slot>,
    /// A rank for each node that grows along every run of siblings, so that
    /// no run of siblings loops back on itself.
    order: Ghost<Seq<int>>,
}

/// Ranks that grow from each node to its next sibling.
pub open spec fn ordered(s: Seq<Slot>, order: Seq<int>) -> bool {
    &&& order.len() == s.len()
    &&& forall|i: int|
        0 <= i < s.len() ==> (#[trigger] s[i].next_sibling matches Some(j) ==> order[i]
            < order[j as int])
}

/// A link that is absent or names an entry of `s`.
pub open spec fn link_ok(s: Seq<Slot>, l: Option<usize>) -> bool {
    l matches Some(j) ==> j < s.len()
}

/// The links of entry `i` of `s` agree with those of its relatives.
pub open spec fn entry_ok(s: Seq<Slot>, i: int) -> bool {
    let e = s[i];
    &&& link_ok(s, e.parent)
    &&& link_ok(s, e.previous_sibling)
    &&& link_ok(s, e.next_sibling)
    &&& link_ok(s, e.first_child)
    &&& link_ok(s, e.last_child)
    &&& e.parent != Some(i as usize)
    &&& (e.first_child is None <==> e.last_child is None)
    &&& (e.first_child matches Some(c) ==> s[c as int].parent == Some(i as usize)
        && s[c as int].previous_sibling is None)
    &&& (e.last_child matches Some(c) ==> s[c as int].parent == Some(i as usize)
        && s[c as int].next_sibling is None)
    &&& (e.next_sibling matches Some(j) ==> e.parent is Some && s[j as int].parent == e.parent
        && s[j as int].previous_sibling == Some(i as usize) && j != i)
    &&& (e.previous_sibling matches Some(j) ==> e.parent is Some && s[j as int].parent == e.parent
        && s[j as int].next_sibling == Some(i as usize) && j != i)
    &&& (e.parent is None ==> e.previous_sibling is None && e.next_sibling is None)
    &&& (e.parent matches Some(q) ==> (e.previous_sibling is None ==> s[q as int].first_child
        == Some(i as usize)))
    &&& (e.parent matches Some(q) ==> (e.next_sibling is None ==> s[q as int].last_child == Some(
        i as usize,
    )))
}

/// The links of `s` form parents with doubly linked runs of children.
pub open spec fn slots_wf(s: Seq<Slot>) -> bool {
    &&& s.len() <= usize::MAX
    &&& forall|i: int| #![trigger s[i]] 0 <= i < s.len() ==> entry_ok(s, i)
}

/// The entry of a node just allocated: it has no relatives yet.
pub open spec fn detached(data: Ast) -> Slot {
    Slot {
        data: data,
        parent: None,
        previous_sibling: None,
        next_sibling: None,
        first_child: None,
        last_child: None,
    }
}

/// `s` after the detached node `c` is linked in as the last child of `p`.
pub open spec fn appended(s: Seq<Slot>, p: usize, c: usize) -> Seq<Slot> {
    let prev = s[p as int].last_child;
    let s1 = match prev {
        Some(l) => s.update(l as int, Slot { next_sibling: Some(c), ..s[l as int] }),
        None => s,
    };
    let s2 = s1.update(
        c as int,
        Slot { parent: Some(p), previous_sibling: prev, next_sibling: None, ..s1[c as int] },
    );
    let first = if prev is None {
        Some(c)
    } else {
        s2[p as int].first_child
    };
    s2.update(p as int, Slot { first_child: first, last_child: Some(c), ..s2[p as int] })
}

/// `s` after node `n` is taken out of its parent's children; its own
/// children stay with it.
pub open spec fn unlinked(s: Seq<Slot>, n: usize) -> Seq<Slot> {
    let e = s[n as int];
    let a = e.previous_sibling;
    let b = e.next_sibling;
    let s1 = match a {
        Some(x) => s.update(x as int, Slot { next_sibling: b, ..s[x as int] }),
        None => match e.parent {
            Some(p) => s.update(p as int, Slot { first_child: b, ..s[p as int] }),
            None => s,
        },
    };
    let s2 = match b {
        Some(y) => s1.update(y as int, Slot { previous_sibling: a, ..s1[y as int] }),
        None => match e.parent {
            Some(p) => s1.update(p as int, Slot { last_child: a, ..s1[p as int] }),
            None => s1,
        },
    };
    s2.update(
        n as int,
        Slot { parent: None, previous_sibling: None, next_sibling: None, ..s2[n as int] },
    )
}

/// The indices of the run of siblings that starts at `first`, following at
/// most `fuel` links.
pub open spec fn sibling_run(s: Seq<Slot>, first: Option<usize>, fuel: nat) -> Seq<usize>
    decreases fuel,
{
    if fuel == 0 {
        Seq::empty()
    } else {
        match first {
            Some(c) => if c < s.len() {
                seq![c].add(sibling_run(s, s[c as int].next_sibling, (fuel - 1) as nat))
            } else {
                Seq::empty()
            },
            None => Seq::empty(),
        }
    }
}

/// Whether node `i`, or the last child of a list or item reached from it
/// through at most `fuel` links, ended on a blank line.
pub open spec fn ends_blank(s: Seq<Slot>, i: nat, fuel: nat) -> bool
    decreases fuel,
{
    if fuel == 0 || i >= s.len() {
        false
    } else if s[i as int].data.last_line_blank {
        true
    } else if s[i as int].data.value is List || s[i as int].data.value is Item {
        match s[i as int].last_child {
            Some(c) => ends_blank(s, c as nat, (fuel - 1) as nat),
            None => false,
        }
    } else {
        false
    }
}

/// The first block among node `i` and its ancestors, following at most
/// `fuel` links.
pub open spec fn nearest_block(s: Seq<Slot>, i: nat, fuel: nat) -> Option<nat>
    decreases fuel,
{
    if fuel == 0 || i >= s.len() {
        None
    } else if is_block(s[i as int].data.value) {
        Some(i)
    } else {
        match s[i as int].parent {
            Some(p) => nearest_block(s, p as nat, (fuel - 1) as nat),
            None => None,
        }
    }
}

/// The entry at `i` of a well-formed `s` satisfies the link rules.
proof fn lemma_entry(s: Seq<Slot>, i: int)
    requires
        slots_wf(s),
        0 <= i < s.len(),
    ensures
        entry_ok(s, i),
{
}

/// Field by field, what linking `c` under `p` changes.
proof fn lemma_appended_fields(s0: Seq<Slot>, p: usize, c: usize, k: int)
    requires
        slots_wf(s0),
        p < s0.len(),
        c < s0.len(),
        p != c,
        s0[c as int].parent is None,
        0 <= k < s0.len(),
    ensures
        ({
            let s = appended(s0, p, c);
            let prev = s0[p as int].last_child;
            &&& s.len() == s0.len()
            &&& s[k].parent == (if k == c {
                Some(p)
            } else {
                s0[k].parent
            })
            &&& s[k].previous_sibling == (if k == c {
                prev
            } else {
                s0[k].previous_sibling
            })
            &&& s[k].next_sibling == (if k == c {
                None
            } else if prev matches Some(l) && l == k {
                Some(c)
            } else {
                s0[k].next_sibling
            })
            &&& s[k].first_child == (if k == p && prev is None {
                Some(c)
            } else {
                s0[k].first_child
            })
            &&& s[k].last_child == (if k == p {
                Some(c)
            } else {
                s0[k].last_child
            })
        }),
{
    lemma_entry(s0, p as int);
    lemma_entry(s0, c as int);
    if let Some(l) = s0[p as int].last_child {
        lemma_entry(s0, l as int);
    }
}

/// Entry `i` still satisfies the link rules once `c` is linked under `p`.
proof fn lemma_appended_entry(s0: Seq<Slot>, p: usize, c: usize, i: int)
    requires
        slots_wf(s0),
        p < s0.len(),
        c < s0.len(),
        p != c,
        s0[c as int].parent is None,
        0 <= i < s0.len(),
    ensures
        entry_ok(appended(s0, p, c), i),
{
    let prev = s0[p as int].last_child;
    lemma_entry(s0, p as int);
    lemma_entry(s0, c as int);
    if let Some(l) = prev {
        lemma_entry(s0, l as int);
        lemma_appended_fields(s0, p, c, l as int);
    }
    lemma_entry(s0, i);
    lemma_appended_fields(s0, p, c, i);
    lemma_appended_fields(s0, p, c, c as int);
    lemma_appended_fields(s0, p, c, p as int);
    let e0 = s0[i];
    if let Some(f) = e0.first_child {
        lemma_entry(s0, f as int);
        lemma_appended_fields(s0, p, c, f as int);
    }
    if let Some(f) = e0.last_child {
        lemma_entry(s0, f as int);
        lemma_appended_fields(s0, p, c, f as int);
    }
    if let Some(j) = e0.next_sibling {
        lemma_entry(s0, j as int);
        lemma_appended_fields(s0, p, c, j as int);
    }
    if let Some(j) = e0.previous_sibling {
        lemma_entry(s0, j as int);
        lemma_appended_fields(s0, p, c, j as int);
    }
    if let Some(q) = e0.parent {
        lemma_entry(s0, q as int);
        lemma_appended_fields(s0, p, c, q as int);
    }
}

/// Linking a node with no parent under another keeps the links consistent.
proof fn lemma_appended_wf(s0: Seq<Slot>, p: usize, c: usize)
    requires
        slots_wf(s0),
        p < s0.len(),
        c < s0.len(),
        p != c,
        s0[c as int].parent is None,
    ensures
        slots_wf(appended(s0, p, c)),
{
    let s = appended(s0, p, c);
    lemma_appended_fields(s0, p, c, 0);
    assert forall|i: int| 0 <= i < s.len() implies entry_ok(s, i) by {
        lemma_appended_entry(s0, p, c, i);
    }
}

/// Field by field, what taking `n` out of its parent's children changes.
proof fn lemma_unlinked_fields(s0: Seq<Slot>, order: Seq<int>, n: usize, k: int)
    requires
        slots_wf(s0),
        ordered(s0, order),
        n < s0.len(),
        0 <= k < s0.len(),
    ensures
        ({
            let s = unlinked(s0, n);
            let e = s0[n as int];
            let a = e.previous_sibling;
            let b = e.next_sibling;
            &&& s.len() == s0.len()
            &&& (a matches Some(x) ==> x != n && b != Some(x))
            &&& (b matches Some(y) ==> y != n)
            &&& (e.parent matches Some(p) ==> a != Some(p) && b != Some(p))
            &&& s[k].data == s0[k].data
            &&& s[k].parent == (if k == n {
                None
            } else {
                s0[k].parent
            })
            &&& s[k].previous_sibling == (if k == n {
                None
            } else if b matches Some(y) && y == k {
                a
            } else {
                s0[k].previous_sibling
            })
            &&& s[k].next_sibling == (if k == n {
                None
            } else if a matches Some(x) && x == k {
                b
            } else {
                s0[k].next_sibling
            })
            &&& s[k].first_child == (if k != n && a is None && (e.parent matches Some(p) && p == k) {
                b
            } else {
                s0[k].first_child
            })
            &&& s[k].last_child == (if k != n && b is None && (e.parent matches Some(p) && p == k) {
                a
            } else {
                s0[k].last_child
            })
        }),
{
    let e = s0[n as int];
    lemma_entry(s0, n as int);
    if let Some(x) = e.previous_sibling {
        lemma_entry(s0, x as int);
    }
    if let Some(y) = e.next_sibling {
        lemma_entry(s0, y as int);
    }
    if let Some(p) = e.parent {
        lemma_entry(s0, p as int);
    }
}

/// Entry `i` still satisfies the link rules, and its rank still grows to its
/// next sibling, once `n` is taken out of its parent's children.
proof fn lemma_unlinked_entry(s0: Seq<Slot>, order: Seq<int>, n: usize, i: int)
    requires
        slots_wf(s0),
        ordered(s0, order),
        n < s0.len(),
        0 <= i < s0.len(),
    ensures
        entry_ok(unlinked(s0, n), i),
        unlinked(s0, n)[i].next_sibling matches Some(j) ==> order[i] < order[j as int],
{
    let e = s0[n as int];
    lemma_entry(s0, n as int);
    lemma_unlinked_fields(s0, order, n, n as int);
    if let Some(x) = e.previous_sibling {
        lemma_entry(s0, x as int);
        lemma_unlinked_fields(s0, order, n, x as int);
        assert(s0[x as int].next_sibling matches Some(j) ==> order[x as int] < order[j as int]);
    }
    if let Some(y) = e.next_sibling {
        lemma_entry(s0, y as int);
        lemma_unlinked_fields(s0, order, n, y as int);
    }
    if let Some(p) = e.parent {
        lemma_entry(s0, p as int);
        lemma_unlinked_fields(s0, order, n, p as int);
    }
    lemma_entry(s0, i);
    lemma_unlinked_fields(s0, order, n, i);
    let e0 = s0[i];
    if let Some(f) = e0.first_child {
        lemma_entry(s0, f as int);
        lemma_unlinked_fields(s0, order, n, f as int);
    }
    if let Some(f) = e0.last_child {
        lemma_entry(s0, f as int);
        lemma_unlinked_fields(s0, order, n, f as int);
    }
    if let Some(j) = e0.next_sibling {
        lemma_entry(s0, j as int);
        lemma_unlinked_fields(s0, order, n, j as int);
    }
    if let Some(j) = e0.previous_sibling {
        lemma_entry(s0, j as int);
        lemma_unlinked_fields(s0, order, n, j as int);
    }
    if let Some(q) = e0.parent {
        lemma_entry(s0, q as int);
        lemma_unlinked_fields(s0, order, n, q as int);
    }
    assert(s0[n as int].next_sibling matches Some(j) ==> order[n as int] < order[j as int]);
    assert(s0[i].next_sibling matches Some(j) ==> order[i] < order[j as int]);
}

/// Taking a node out of its parent's children keeps the links consistent
/// and the sibling ranks growing.
proof fn lemma_unlinked_wf(s0: Seq<Slot>, order: Seq<int>, n: usize)
    requires
        slots_wf(s0),
        ordered(s0, order),
        n < s0.len(),
    ensures
        slots_wf(unlinked(s0, n)),
        ordered(unlinked(s0, n), order),
{
    let s = unlinked(s0, n);
    lemma_unlinked_fields(s0, order, n, n as int);
    assert forall|i: int| 0 <= i < s.len() implies entry_ok(s, i) by {
        lemma_unlinked_entry(s0, order, n, i);
    }
    assert forall|i: int| 0 <= i < s.len() implies (#[trigger] s[i].next_sibling matches Some(j)
        ==> order[i] < order[j as int]) by {
        lemma_unlinked_entry(s0, order, n, i);
    }
}

impl View for Arena {
    type V = Seq<Slot>;

    closed spec fn view(&self) -> Seq<Slot> {
        self.slots@
    }
}

impl Arena {
    /// Whether the links between this arena's nodes are consistent.
    pub closed spec fn wf(&self) -> bool {
        slots_wf(self@) && ordered(self@, self.order@)
    }

    /// Whether `n` is a node of this arena.
    pub open spec fn has(&self, n: Node) -> bool {
        n.id < self@.len()
    }

    /// An arena with no nodes.
    pub fn new() -> (r: Arena)
        ensures
            r@.len() == 0,
            r.wf(),
    {
        Arena { slots: Vec::new(), order: Ghost(Seq::empty()) }
    }

    /// The number of nodes in the arena.
    pub fn len(&self) -> (r: usize)
        ensures
            r == self@.len(),
    {
        self.slots.len()
    }

    /// Adds a node that holds `data` and has no relatives, and returns it.
    pub fn new_node(&mut self, data: Ast) -> (n: Node)
        requires
            old(self).wf(),
            old(self)@.len() < usize::MAX,
        ensures
            final(self).wf(),
            n.id == old(self)@.len(),
            final(self)@ == old(self)@.push(detached(data)),
    {
        let n = Node { id: self.slots.len() };
        self.slots.push(
            Slot {
                data: data,
                parent: None,
                previous_sibling: None,
                next_sibling: None,
                first_child: None,
                last_child: None,
            },
        );
        self.order = Ghost(self.order@.push(0));
        n
    }

    /// The data of node `n`.
    pub fn data(&self, n: Node) -> (r: &Ast)
        requires
            self.has(n),
        ensures
            *r == self@[n.id as int].data,
    {
        &self.slots[n.id].data
    }

    /// The data of node `n`, to change in place; the links stay as they are.
    #[verifier::rlimit(50)]
    pub fn data_mut(&mut self, n: Node) -> (r: &mut Ast)
        requires
            old(self).has(n),
        ensures
            *r == old(self)@[n.id as int].data,
            final(self)@ == old(self)@.update(
                n.id as int,
                Slot { data: *final(r), ..old(self)@[n.id as int] },
            ),
            old(self).wf() ==> final(self).wf(),
    {
        &mut self.slots[n.id].data
    }

    /// Takes `child` out of wherever it stands and links it in as the last
    /// child of `parent`. Whether `parent` may hold such a child is not
    /// checked here: callers ask `Node::can_contain_type` first.
    pub fn append(&mut self, parent: Node, child: Node)
        requires
            old(self).wf(),
            old(self).has(parent),
            old(self).has(child),
            parent != child,
        ensures
            final(self).wf(),
            final(self)@ == appended(unlinked(old(self)@, child.id), parent.id, child.id),
    {
        self.detach(child);
        let ghost s0 = self@;
        let p = parent.id;
        let c = child.id;
        let prev = self.slots[p].last_child;
        match prev {
            Some(l) => {
                self.slots[l].next_sibling = Some(c);
            },
            None => {},
        }
        self.slots[c].parent = Some(p);
        self.slots[c].previous_sibling = prev;
        self.slots[c].next_sibling = None;
        if prev.is_none() {
            self.slots[p].first_child = Some(c);
        }
        self.slots[p].last_child = Some(c);
        let ghost o0 = self.order@;
        self.order = Ghost(
            match prev {
                Some(l) => o0.update(c as int, o0[l as int] + 1),
                None => o0,
            },
        );
        proof {
            assert(self@ =~= appended(s0, p, c));
            lemma_appended_wf(s0, p, c);
            let s = self@;
            let o = self.order@;
            assert forall|i: int| 0 <= i < s.len() implies (#[trigger] s[i].next_sibling matches Some(
                j,
            ) ==> o[i] < o[j as int]) by {
                lemma_entry(s0, i);
                lemma_entry(s0, c as int);
                lemma_appended_fields(s0, p, c, i);
                if let Some(j) = s0[i].next_sibling {
                    lemma_appended_fields(s0, p, c, j as int);
                }
            }
        }
    }

    /// Takes `n` out of its parent's children, joining its former siblings;
    /// `n` keeps its own children. A node without a parent is left as it is.
    pub fn detach(&mut self, n: Node)
        requires
            old(self).wf(),
            old(self).has(n),
        ensures
            final(self).wf(),
            final(self)@ == unlinked(old(self)@, n.id),
    {
        let ghost s0 = self@;
        proof {
            lemma_entry(s0, n.id as int);
        }
        let i = n.id;
        let a = self.slots[i].previous_sibling;
        let b = self.slots[i].next_sibling;
        let par = self.slots[i].parent;
        proof {
            lemma_unlinked_fields(s0, self.order@, i, i as int);
            if let Some(p) = par {
                lemma_entry(s0, p as int);
            }
        }
        match a {
            Some(x) => {
                self.slots[x].next_sibling = b;
            },
            None => match par {
                Some(p) => {
                    self.slots[p].first_child = b;
                },
                None => {},
            },
        }
        match b {
            Some(y) => {
                self.slots[y].previous_sibling = a;
            },
            None => match par {
                Some(p) => {
                    self.slots[p].last_child = a;
                },
                None => {},
            },
        }
        self.slots[i].parent = None;
        self.slots[i].previous_sibling = None;
        self.slots[i].next_sibling = None;
        proof {
            assert(self@ =~= unlinked(s0, i));
            lemma_unlinked_wf(s0, self.order@, i);
        }
    }

    /// The parent of `n`, if it has one.
    pub fn parent(&self, n: Node) -> (r: Option<Node>)
        requires
            self.has(n),
        ensures
            r == (match self@[n.id as int].parent {
                Some(j) => Some(Node { id: j }),
                None => None,
            }),
    {
        match self.slots[n.id].parent {
            Some(j) => Some(Node { id: j }),
            None => None,
        }
    }

    /// The first child of `n`, if it has children.
    pub fn first_child(&self, n: Node) -> (r: Option<Node>)
        requires
            self.has(n),
        ensures
            r == (match self@[n.id as int].first_child {
                Some(j) => Some(Node { id: j }),
                None => None,
            }),
    {
        match self.slots[n.id].first_child {
            Some(j) => Some(Node { id: j }),
            None => None,
        }
    }

    /// The last child of `n`, if it has children.
    pub fn last_child(&self, n: Node) -> (r: Option<Node>)
        requires
            self.has(n),
        ensures
            r == (match self@[n.id as int].last_child {
                Some(j) => Some(Node { id: j }),
                None => None,
            }),
    {
        match self.slots[n.id].last_child {
            Some(j) => Some(Node { id: j }),
            None => None,
        }
    }

    /// The sibling just before `n`, if any.
    pub fn previous_sibling(&self, n: Node) -> (r: Option<Node>)
        requires
            self.has(n),
        ensures
            r == (match self@[n.id as int].previous_sibling {
                Some(j) => Some(Node { id: j }),
                None => None,
            }),
    {
        match self.slots[n.id].previous_sibling {
            Some(j) => Some(Node { id: j }),
            None => None,
        }
    }

    /// The sibling just after `n`, if any.
    pub fn next_sibling(&self, n: Node) -> (r: Option<Node>)
        requires
            self.has(n),
        ensures
            r == (match self@[n.id as int].next_sibling {
                Some(j) => Some(Node { id: j }),
                None => None,
            }),
    {
        match self.slots[n.id].next_sibling {
            Some(j) => Some(Node { id: j }),
            None => None,
        }
    }
}

impl Arena {
    /// The children of `n`, first to last.
    pub fn children(&self, n: Node) -> (r: Vec<Node>)
        requires
            self.has(n),
        ensures
            r@.map_values(|k: Node| k.id) == sibling_run(
                self@,
                self@[n.id as int].first_child,
                self@.len(),
            ),
    {
        let ghost s = self@;
        let mut out: Vec<Node> = Vec::new();
        let mut cur = self.slots[n.id].first_child;
        let mut fuel: usize = self.slots.len();
        while fuel > 0
            invariant
                s == self@,
                fuel <= s.len(),
                out@.map_values(|k: Node| k.id).add(sibling_run(s, cur, fuel as nat))
                    == sibling_run(s, s[n.id as int].first_child, s.len()),
            decreases fuel,
        {
            match cur {
                Some(c) => {
                    if c >= self.slots.len() {
                        proof {
                            assert(sibling_run(s, cur, fuel as nat) =~= Seq::<usize>::empty());
                            assert(out@.map_values(|k: Node| k.id) =~= out@.map_values(
                                |k: Node| k.id,
                            ).add(Seq::<usize>::empty()));
                        }
                        return out;
                    }
                    let ghost before = out@.map_values(|k: Node| k.id);
                    out.push(Node { id: c });
                    assert(out@.map_values(|k: Node| k.id) =~= before.push(c));
                    assert(before.push(c).add(sibling_run(s, s[c as int].next_sibling, (fuel - 1) as nat))
                        =~= before.add(seq![c].add(sibling_run(s, s[c as int].next_sibling, (fuel - 1) as nat))));
                    cur = self.slots[c].next_sibling;
                    fuel = fuel - 1;
                },
                None => {
                    proof {
                        assert(sibling_run(s, cur, fuel as nat) =~= Seq::<usize>::empty());
                        assert(out@.map_values(|k: Node| k.id) =~= out@.map_values(
                            |k: Node| k.id,
                        ).add(Seq::<usize>::empty()));
                    }
                    return out;
                },
            }
        }
        proof {
            assert(sibling_run(s, cur, fuel as nat) =~= Seq::<usize>::empty());
            assert(out@.map_values(|k: Node| k.id) =~= out@.map_values(|k: Node| k.id).add(
                Seq::<usize>::empty(),
            ));
        }
        out
    }
}

impl Node {
    /// Whether `self` has children and its last child is still open.
    pub fn last_child_is_open(&self, arena: &Arena) -> (r: bool)
        requires
            arena.wf(),
            arena.has(*self),
        ensures
            r == (arena@[self.id as int].last_child matches Some(c) && arena@[c as int].data.open),
    {
        match arena.last_child(*self) {
            Some(c) => {
                proof {
                    lemma_entry(arena@, self.id as int);
                }
                arena.data(c).open
            },
            None => false,
        }
    }

    /// Whether `self` may hold a direct child of kind `child`.
    pub fn can_contain_type(&self, arena: &Arena, child: &NodeValue) -> (r: bool)
        requires
            arena.has(*self),
        ensures
            r == can_contain(arena@[self.id as int].data.value, *child),
    {
        if let NodeValue::Document = child {
            return false;
        }
        match arena.data(*self).value {
            NodeValue::Document | NodeValue::BlockQuote | NodeValue::Item(..) => child.block()
                && !matches!(child, NodeValue::Item(..)),
            NodeValue::List(..) => matches!(child, NodeValue::Item(..)),
            NodeValue::CustomBlock => true,
            NodeValue::Paragraph
            | NodeValue::Heading(..)
            | NodeValue::Emph
            | NodeValue::Strong
            | NodeValue::Link(..)
            | NodeValue::Image(..)
            | NodeValue::CustomInline => !child.block(),
            _ => false,
        }
    }

    /// Whether `self` ended on a blank line, looking through the last child
    /// of each list and item on the way down. The walk follows at most as
    /// many links as the arena has nodes, a bound that no path of a tree
    /// reaches.
    pub fn ends_with_blank_line(&self, arena: &Arena) -> (r: bool)
        requires
            arena.has(*self),
        ensures
            r == ends_blank(arena@, self.id as nat, arena@.len()),
    {
        let ghost s = arena@;
        let mut cur: usize = self.id;
        let mut fuel: usize = arena.len();
        while fuel > 0
            invariant
                s == arena@,
                cur < s.len(),
                fuel <= s.len(),
                ends_blank(s, self.id as nat, s.len()) == ends_blank(s, cur as nat, fuel as nat),
            decreases fuel,
        {
            let n = Node { id: cur };
            let d = arena.data(n);
            if d.last_line_blank {
                return true;
            }
            match d.value {
                NodeValue::List(..) | NodeValue::Item(..) => match arena.last_child(n) {
                    Some(c) => {
                        if c.id >= arena.len() {
                            assert(!ends_blank(s, c.id as nat, (fuel - 1) as nat));
                            return false;
                        }
                        cur = c.id;
                        fuel = fuel - 1;
                    },
                    None => {
                        return false;
                    },
                },
                _ => {
                    return false;
                },
            }
        }
        false
    }

    /// The nearest block among `self` and its ancestors: `self` itself when
    /// it is a block. The walk follows at most as many links as the arena has
    /// nodes, a bound that no path of a tree reaches.
    pub fn containing_block(&self, arena: &Arena) -> (r: Option<Node>)
        requires
            arena.has(*self),
        ensures
            (match r {
                Some(b) => Some(b.id as nat),
                None => None,
            }) == nearest_block(arena@, self.id as nat, arena@.len()),
    {
        let ghost s = arena@;
        let mut cur: usize = self.id;
        let mut fuel: usize = arena.len();
        while fuel > 0
            invariant
                s == arena@,
                cur < s.len(),
                fuel <= s.len(),
                nearest_block(s, self.id as nat, s.len()) == nearest_block(s, cur as nat, fuel as nat),
            decreases fuel,
        {
            let n = Node { id: cur };
            if arena.data(n).value.block() {
                return Some(n);
            }
            match arena.parent(n) {
                Some(p) => {
                    if p.id >= arena.len() {
                        assert(nearest_block(s, p.id as nat, (fuel - 1) as nat) is None);
                        return None;
                    }
                    cur = p.id;
                    fuel = fuel - 1;
                },
                None => {
                    return None;
                },
            }
        }
        None
    }
}

/// Walking up from `i` for any number of links finds a block or nothing:
/// never an inline node, and never an index outside the arena.
proof fn lemma_nearest_block_fuel(s: Seq<Slot>, i: nat, fuel: nat)
    ensures
        nearest_block(s, i, fuel) matches Some(b) ==> b < s.len() && is_block(s[b as int].data.value),
    decreases fuel,
{
    if fuel > 0 && i < s.len() && !is_block(s[i as int].data.value) {
        if let Some(p) = s[i as int].parent {
            lemma_nearest_block_fuel(s, p as nat, (fuel - 1) as nat);
        }
    }
}

/// The containing block of any node is a block node of the arena, never an
/// inline one; and a block node is its own containing block.
pub proof fn lemma_containing_block_is_block(arena: &Arena, n: Node)
    requires
        arena.has(n),
    ensures
        nearest_block(arena@, n.id as nat, arena@.len()) matches Some(b) ==> b < arena@.len()
            && is_block(arena@[b as int].data.value),
        is_block(arena@[n.id as int].data.value) ==> nearest_block(
            arena@,
            n.id as nat,
            arena@.len(),
        ) == Some(n.id as nat),
{
    lemma_nearest_block_fuel(arena@, n.id as nat, arena@.len());
}

/// A list whose last child is an item that ended on a blank line ends on a
/// blank line itself.
pub proof fn lemma_blank_last_item(arena: &Arena, list: Node, item: Node)
    requires
        arena.wf(),
        arena.has(list),
        arena@[list.id as int].data.value is List,
        arena@[list.id as int].last_child == Some(item.id),
        arena@[item.id as int].data.value is Item,
        arena@[item.id as int].data.last_line_blank,
    ensures
        ends_blank(arena@, list.id as nat, arena@.len()),
{
    let s = arena@;
    lemma_entry(s, list.id as int);
    lemma_entry(s, item.id as int);
    assert(item.id != list.id);
    assert(s.len() >= 2);
    assert(ends_blank(s, item.id as nat, (s.len() - 1) as nat));
}

/// The look through a list stops at a paragraph: a list, its last item and
/// that item's last child, a paragraph, none of which ended on a blank line,
/// give a list that does not end on a blank line.
pub proof fn lemma_blank_stops_at_paragraph(arena: &Arena, list: Node, item: Node, para: Node)
    requires
        arena.wf(),
        arena.has(list),
        arena@[list.id as int].data.value is List,
        !arena@[list.id as int].data.last_line_blank,
        arena@[list.id as int].last_child == Some(item.id),
        arena@[item.id as int].data.value is Item,
        !arena@[item.id as int].data.last_line_blank,
        arena@[item.id as int].last_child == Some(para.id),
        arena@[para.id as int].data.value is Paragraph,
        !arena@[para.id as int].data.last_line_blank,
    ensures
        !ends_blank(arena@, list.id as nat, arena@.len()),
{
    let s = arena@;
    let f = s.len();
    if f >= 1 {
        if f >= 2 {
            if f >= 3 {
                assert(!ends_blank(s, para.id as nat, (f - 2) as nat));
            }
            assert(!ends_blank(s, item.id as nat, (f - 1) as nat));
        }
    }
}

} // verus!
