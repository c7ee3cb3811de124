use vstd::prelude::*;
use crate::state::{ButtonRole, Interaction, MenuKind, Shade};

verus! {

/// What a node of the menu scene is.
#[derive(Clone, Copy, Debug, PartialEq, Eq, Structural, Hash)]
pub enum Element {
    /// The full-screen panel at the root of a menu; it carries the menu's root marker.
    Panel(MenuKind),
    /// The menu's title text.
    Heading(MenuKind),
    /// An interactive button.
    Button(ButtonRole),
    /// The text inside a button.
    Caption(ButtonRole),
}

/// One node of the scene graph.
#[derive(Clone, Copy, Debug, PartialEq, Eq, Structural)]
pub struct UiNode {
    pub id: u64,
    pub parent: Option<u64>,
    pub element: Element,
    pub interaction: Interaction,
    pub shade: Shade,
}

/// The scene graph: nodes listed parents first, and the next unused id.
pub struct Scene {
    pub nodes: Vec<UiNode>,
    pub next_id: u64,
}

/// Nodes in one menu's tree: panel, heading, and three buttons with a caption each.
pub const MENU_NODES: u64 = 8;

pub open spec fn ids_unique(s: Seq<UiNode>) -> bool {
    forall|i: int, j: int| 0 <= i < j < s.len() ==> #[trigger] s[i].id != #[trigger] s[j].id
}

/// Every node's parent stands before it.
pub open spec fn parents_first(s: Seq<UiNode>) -> bool {
    forall|i: int|
        0 <= i < s.len() && (#[trigger] s[i]).parent is Some ==> exists|j: int|
            0 <= j < i && (#[trigger] s[j]).id == s[i].parent->0
}

pub open spec fn ids_below(s: Seq<UiNode>, bound: u64) -> bool {
    forall|i: int| 0 <= i < s.len() ==> (#[trigger] s[i]).id < bound
}

#[verifier::opaque]
pub open spec fn scene_wf(s: Seq<UiNode>, next_id: u64) -> bool {
    &&& ids_unique(s)
    &&& parents_first(s)
    &&& ids_below(s, next_id)
}

/// The three buttons of a menu, top to bottom.
pub open spec fn menu_roles(m: MenuKind) -> (ButtonRole, ButtonRole, ButtonRole) {
    match m {
        MenuKind::Main => (ButtonRole::Start, ButtonRole::Options, ButtonRole::Exit),
        MenuKind::Options => (ButtonRole::Sound, ButtonRole::Difficulty, ButtonRole::Back),
    }
}

pub open spec fn new_node(id: u64, parent: Option<u64>, element: Element) -> UiNode {
    UiNode { id, parent, element, interaction: Interaction::Idle, shade: Shade::Fresh }
}

/// The tree that entering menu `m` spawns, with ids `base` to `base + 7`.
pub open spec fn menu_tree(m: MenuKind, base: u64) -> Seq<UiNode> {
    let (a, b, c) = menu_roles(m);
    seq![
        new_node(base, None, Element::Panel(m)),
        new_node((base + 1) as u64, Some(base), Element::Heading(m)),
        new_node((base + 2) as u64, Some(base), Element::Button(a)),
        new_node((base + 3) as u64, Some((base + 2) as u64), Element::Caption(a)),
        new_node((base + 4) as u64, Some(base), Element::Button(b)),
        new_node((base + 5) as u64, Some((base + 4) as u64), Element::Caption(b)),
        new_node((base + 6) as u64, Some(base), Element::Button(c)),
        new_node((base + 7) as u64, Some((base + 6) as u64), Element::Caption(c)),
    ]
}

/// Ids restart from zero once the scene is empty.
pub open spec fn fresh_base(s: Seq<UiNode>, next_id: u64) -> u64 {
    if s.len() == 0 { 0 } else { next_id }
}

/// A new tree fits below the largest id.
pub open spec fn can_spawn(s: Seq<UiNode>, next_id: u64) -> bool {
    s.len() == 0 || next_id <= u64::MAX - MENU_NODES
}

pub fn roles_of(m: MenuKind) -> (r: (ButtonRole, ButtonRole, ButtonRole))
    ensures
        r == menu_roles(m),
{
    match m {
        MenuKind::Main => (ButtonRole::Start, ButtonRole::Options, ButtonRole::Exit),
        MenuKind::Options => (ButtonRole::Sound, ButtonRole::Difficulty, ButtonRole::Back),
    }
}

fn make_node(id: u64, parent: Option<u64>, element: Element) -> (r: UiNode)
    ensures
        r == new_node(id, parent, element),
{
    UiNode { id, parent, element, interaction: Interaction::Idle, shade: Shade::Fresh }
}

pub(crate) proof fn lemma_menu_tree_wf(m: MenuKind, base: u64)
    requires
        base <= u64::MAX - MENU_NODES,
    ensures
        ids_unique(menu_tree(m, base)),
        parents_first(menu_tree(m, base)),
        forall|i: int| 0 <= i < 8 ==> (#[trigger] menu_tree(m, base)[i]).id == base + i,
        menu_tree(m, base).len() == 8,
{
    let t = menu_tree(m, base);
    assert forall|i: int| 0 <= i < 8 implies (#[trigger] t[i]).id == base + i by {}
    assert forall|i: int|
        0 <= i < t.len() && (#[trigger] t[i]).parent is Some implies exists|j: int|
            0 <= j < i && (#[trigger] t[j]).id == t[i].parent->0 by {
        if i == 3 {
            assert(t[2].id == t[i].parent->0);
        } else if i == 5 {
            assert(t[4].id == t[i].parent->0);
        } else if i == 7 {
            assert(t[6].id == t[i].parent->0);
        } else {
            assert(t[0].id == t[i].parent->0);
        }
    }
}

fn push_tree(v: &mut Vec<UiNode>, m: MenuKind, base: u64)
    requires
        base <= u64::MAX - MENU_NODES,
    ensures
        final(v)@ == old(v)@ + menu_tree(m, base),
{
    let (a, b, c) = roles_of(m);
    v.push(make_node(base, None, Element::Panel(m)));
    v.push(make_node(base + 1, Some(base), Element::Heading(m)));
    v.push(make_node(base + 2, Some(base), Element::Button(a)));
    v.push(make_node(base + 3, Some(base + 2), Element::Caption(a)));
    v.push(make_node(base + 4, Some(base), Element::Button(b)));
    v.push(make_node(base + 5, Some(base + 4), Element::Caption(b)));
    v.push(make_node(base + 6, Some(base), Element::Button(c)));
    v.push(make_node(base + 7, Some(base + 6), Element::Caption(c)));
    assert(final(v)@ =~= old(v)@ + menu_tree(m, base));
}

proof fn lemma_append_tree_wf(before: Seq<UiNode>, next_id: u64, m: MenuKind, base: u64)
    requires
        scene_wf(before, next_id),
        base == fresh_base(before, next_id),
        base <= u64::MAX - MENU_NODES,
    ensures
        scene_wf(before + menu_tree(m, base), (base + MENU_NODES) as u64),
{
    reveal(scene_wf);
    let t = menu_tree(m, base);
    let s = before + t;
    let n = before.len();
    lemma_menu_tree_wf(m, base);
    assert forall|i: int, j: int| 0 <= i < j < s.len() implies #[trigger] s[i].id
        != #[trigger] s[j].id by {
        if j >= n && i < n {
            assert(s[i] == before[i]);
            assert(s[j] == t[j - n]);
        } else if j >= n {
            assert(s[i] == t[i - n]);
            assert(s[j] == t[j - n]);
        } else {
            assert(s[i] == before[i]);
            assert(s[j] == before[j]);
        }
    }
    assert forall|i: int|
        0 <= i < s.len() && (#[trigger] s[i]).parent is Some implies exists|j: int|
            0 <= j < i && (#[trigger] s[j]).id == s[i].parent->0 by {
        if i < n {
            assert(s[i] == before[i]);
            let j = choose|j: int| 0 <= j < i && (#[trigger] before[j]).id == before[i].parent->0;
            assert(s[j] == before[j]);
        } else {
            assert(s[i] == t[i - n]);
            let j = choose|j: int| 0 <= j < i - n && (#[trigger] t[j]).id == t[i - n].parent->0;
            assert(s[j + n] == t[j]);
        }
    }
    assert forall|i: int| 0 <= i < s.len() implies (#[trigger] s[i]).id < base + MENU_NODES by {
        if i >= n {
            assert(s[i] == t[i - n]);
        } else {
            assert(s[i] == before[i]);
        }
    }
}

/// The ids of `root` and of all its descendants among `s`, parents being
/// listed before their children: a node belongs if it is the root or its
/// parent belongs.
pub open spec fn subtree_ids(s: Seq<UiNode>, root: u64) -> Set<u64>
    decreases s.len(),
{
    if s.len() == 0 {
        Set::empty()
    } else {
        let prev = subtree_ids(s.drop_last(), root);
        let n = s.last();
        if n.id == root || (n.parent matches Some(p) && prev.contains(p)) {
            prev.insert(n.id)
        } else {
            prev
        }
    }
}

/// Whether node `i` of `s` is `root` or hangs under it.
pub open spec fn joins_subtree(s: Seq<UiNode>, i: int, root: u64) -> bool {
    s[i].id == root || (s[i].parent matches Some(p) && subtree_ids(s.take(i), root).contains(p))
}

pub open spec fn outside(gone: Set<u64>) -> spec_fn(UiNode) -> bool {
    |n: UiNode| !gone.contains(n.id)
}

pub open spec fn is_root_of(m: MenuKind) -> spec_fn(UiNode) -> bool {
    |n: UiNode| n.element == Element::Panel(m)
}

/// The nodes that carry menu `m`'s root marker.
pub open spec fn roots_of(s: Seq<UiNode>, m: MenuKind) -> Seq<UiNode> {
    s.filter(is_root_of(m))
}

/// The root that tearing down menu `m` removes: the one node with its root
/// marker; none when there are zero or several.
pub open spec fn single_root_of(s: Seq<UiNode>, m: MenuKind) -> Option<u64> {
    if roots_of(s, m).len() == 1 { Some(roots_of(s, m)[0].id) } else { None }
}

/// The scene after tearing down menu `m`: its root and every descendant go.
pub open spec fn despawned(s: Seq<UiNode>, m: MenuKind) -> Seq<UiNode> {
    match single_root_of(s, m) {
        Some(r) => s.filter(outside(subtree_ids(s, r))),
        None => s,
    }
}

proof fn lemma_subtree_within(s: Seq<UiNode>, root: u64, x: u64)
    requires
        subtree_ids(s, root).contains(x),
    ensures
        exists|j: int| 0 <= j < s.len() && (#[trigger] s[j]).id == x,
    decreases s.len(),
{
    let prev = subtree_ids(s.drop_last(), root);
    if prev.contains(x) {
        lemma_subtree_within(s.drop_last(), root, x);
        let j = choose|j: int| 0 <= j < s.drop_last().len() && (#[trigger] s.drop_last()[j]).id == x;
        assert(s[j] == s.drop_last()[j]);
    } else {
        assert(s[s.len() - 1].id == x);
    }
}

/// With unique ids, a node is in the subtree exactly when it joins it at its own place.
proof fn lemma_subtree_member(s: Seq<UiNode>, root: u64, i: int)
    requires
        ids_unique(s),
        0 <= i < s.len(),
    ensures
        subtree_ids(s, root).contains(s[i].id) == joins_subtree(s, i, root),
    decreases s.len(),
{
    let d = s.drop_last();
    let prev = subtree_ids(d, root);
    if i == s.len() - 1 {
        assert(s.take(i) =~= d);
        if prev.contains(s[i].id) {
            lemma_subtree_within(d, root, s[i].id);
            let j = choose|j: int| 0 <= j < d.len() && (#[trigger] d[j]).id == s[i].id;
            assert(s[j] == d[j]);
        }
    } else {
        assert(ids_unique(d)) by {
            assert forall|a: int, b: int| 0 <= a < b < d.len() implies #[trigger] d[a].id
                != #[trigger] d[b].id by {
                assert(d[a] == s[a] && d[b] == s[b]);
            }
        }
        lemma_subtree_member(d, root, i);
        assert(d.take(i) =~= s.take(i));
        assert(d[i] == s[i]);
        assert(s[i].id != s[s.len() - 1].id);
    }
}

proof fn lemma_prefix_unique(s: Seq<UiNode>, k: int)
    requires
        ids_unique(s),
        0 <= k <= s.len(),
    ensures
        ids_unique(s.take(k)),
{
    let t = s.take(k);
    assert forall|a: int, b: int| 0 <= a < b < t.len() implies #[trigger] t[a].id
        != #[trigger] t[b].id by {
        assert(t[a] == s[a] && t[b] == s[b]);
    }
}

proof fn lemma_filter_step(s: Seq<UiNode>, i: int, p: spec_fn(UiNode) -> bool)
    requires
        0 <= i < s.len(),
    ensures
        s.take(i + 1).filter(p) == (if p(s[i]) {
            s.take(i).filter(p).push(s[i])
        } else {
            s.take(i).filter(p)
        }),
{
    reveal(Seq::filter);
    assert(s.take(i + 1).drop_last() =~= s.take(i));
    assert(s.take(i + 1).last() == s[i]);
}

proof fn lemma_subtree_step(s: Seq<UiNode>, i: int, root: u64)
    requires
        0 <= i < s.len(),
    ensures
        subtree_ids(s.take(i + 1), root) == (if joins_subtree(s, i, root) {
            subtree_ids(s.take(i), root).insert(s[i].id)
        } else {
            subtree_ids(s.take(i), root)
        }),
{
    assert(s.take(i + 1).drop_last() =~= s.take(i));
    assert(s.take(i + 1).last() == s[i]);
}

/// Keeping node `i`, which does not join the subtree, keeps the kept nodes
/// well formed: its parent was kept before it.
proof fn lemma_keep_push(s: Seq<UiNode>, root: u64, i: int, kept: Seq<UiNode>, origin: Seq<int>)
    requires
        ids_unique(s),
        parents_first(s),
        0 <= i < s.len(),
        !joins_subtree(s, i, root),
        origin.len() == kept.len(),
        forall|a: int| 0 <= a < origin.len() ==> 0 <= #[trigger] origin[a] < i && s[origin[a]] == kept[a],
        forall|j: int| 0 <= j < i && !subtree_ids(s, root).contains(#[trigger] s[j].id) ==> exists|a: int|
            0 <= a < origin.len() && #[trigger] origin[a] == j,
        ids_unique(kept),
        parents_first(kept),
    ensures
        ids_unique(kept.push(s[i])),
        parents_first(kept.push(s[i])),
{
    let k = kept.push(s[i]);
    assert forall|a: int, b: int| 0 <= a < b < k.len() implies #[trigger] k[a].id
        != #[trigger] k[b].id by {
        if b == k.len() - 1 {
            assert(k[a] == s[origin[a]]);
        } else {
            assert(k[a] == kept[a] && k[b] == kept[b]);
        }
    }
    assert forall|x: int|
        0 <= x < k.len() && (#[trigger] k[x]).parent is Some implies exists|y: int|
            0 <= y < x && (#[trigger] k[y]).id == k[x].parent->0 by {
        if x == k.len() - 1 {
            let p = s[i].parent->0;
            let j = choose|j: int| 0 <= j < i && (#[trigger] s[j]).id == p;
            lemma_prefix_unique(s, i);
            lemma_subtree_member(s.take(i), root, j);
            assert(s.take(i).take(j) =~= s.take(j));
            assert(s.take(i)[j] == s[j]);
            lemma_subtree_member(s, root, j);
            assert(!subtree_ids(s, root).contains(s[j].id));
            let a = choose|a: int| 0 <= a < origin.len() && #[trigger] origin[a] == j;
            assert(k[a] == kept[a]);
            assert(k[a].id == p);
        } else {
            assert(k[x] == kept[x]);
            let y = choose|y: int| 0 <= y < x && (#[trigger] kept[y]).id == kept[x].parent->0;
            assert(k[y] == kept[y]);
        }
    }
}

/// Where the teardown of the subtree under `root` stands after `i` nodes:
/// `gone` holds the ids removed so far, `kept` the nodes kept so far, and
/// `origin` where each kept node stood.
#[verifier::opaque]
spec fn removal_inv(s: Seq<UiNode>, root: u64, i: int, gone: Seq<u64>, kept: Seq<UiNode>, origin: Seq<int>) -> bool {
    &&& forall|x: u64| gone.contains(x) <==> subtree_ids(s.take(i), root).contains(x)
    &&& kept == s.take(i).filter(outside(subtree_ids(s, root)))
    &&& origin.len() == kept.len()
    &&& forall|a: int| 0 <= a < origin.len() ==> 0 <= #[trigger] origin[a] < i && s[origin[a]] == kept[a]
    &&& forall|j: int| 0 <= j < i && !subtree_ids(s, root).contains(#[trigger] s[j].id) ==> exists|a: int|
        0 <= a < origin.len() && #[trigger] origin[a] == j
    &&& ids_unique(kept)
    &&& parents_first(kept)
    &&& forall|a: int| 0 <= a < kept.len() ==> exists|j: int| 0 <= j < s.len() && #[trigger] kept[a] == s[j]
}

proof fn lemma_removal_step(
    s: Seq<UiNode>,
    root: u64,
    i: int,
    gone: Seq<u64>,
    kept: Seq<UiNode>,
    origin: Seq<int>,
    dies: bool,
)
    requires
        ids_unique(s),
        parents_first(s),
        0 <= i < s.len(),
        removal_inv(s, root, i, gone, kept, origin),
        dies == (s[i].id == root || (s[i].parent matches Some(p) && gone.contains(p))),
    ensures
        dies ==> removal_inv(s, root, i + 1, gone.push(s[i].id), kept, origin),
        !dies ==> removal_inv(s, root, i + 1, gone, kept.push(s[i]), origin.push(i)),
{
    assert(dies == joins_subtree(s, i, root)) by {
        reveal(removal_inv);
    }
    lemma_subtree_member(s, root, i);
    if dies {
        lemma_removal_drop(s, root, i, gone, kept, origin);
    } else {
        lemma_removal_keep(s, root, i, gone, kept, origin);
    }
}

proof fn lemma_removal_drop(s: Seq<UiNode>, root: u64, i: int, gone: Seq<u64>, kept: Seq<UiNode>, origin: Seq<int>)
    requires
        ids_unique(s),
        0 <= i < s.len(),
        removal_inv(s, root, i, gone, kept, origin),
        joins_subtree(s, i, root),
        subtree_ids(s, root).contains(s[i].id),
    ensures
        removal_inv(s, root, i + 1, gone.push(s[i].id), kept, origin),
{
    reveal(removal_inv);
    lemma_subtree_step(s, i, root);
    lemma_filter_step(s, i, outside(subtree_ids(s, root)));
    {
        let g = gone.push(s[i].id);
        assert forall|x: u64| g.contains(x) <==> subtree_ids(s.take(i + 1), root).contains(x) by {
            if g.contains(x) && x != s[i].id {
                let k = choose|k: int| 0 <= k < g.len() && g[k] == x;
                assert(gone[k] == x);
            }
            if x == s[i].id {
                assert(g[g.len() - 1] == x);
            }
            if gone.contains(x) {
                let k = choose|k: int| 0 <= k < gone.len() && gone[k] == x;
                assert(g[k] == x);
            }
        }
    }
}

#[verifier::rlimit(100)]
proof fn lemma_removal_keep(s: Seq<UiNode>, root: u64, i: int, gone: Seq<u64>, kept: Seq<UiNode>, origin: Seq<int>)
    requires
        ids_unique(s),
        parents_first(s),
        0 <= i < s.len(),
        removal_inv(s, root, i, gone, kept, origin),
        !joins_subtree(s, i, root),
        !subtree_ids(s, root).contains(s[i].id),
    ensures
        removal_inv(s, root, i + 1, gone, kept.push(s[i]), origin.push(i)),
{
    reveal(removal_inv);
    lemma_subtree_step(s, i, root);
    lemma_filter_step(s, i, outside(subtree_ids(s, root)));
    assert(outside(subtree_ids(s, root))(s[i]));
    assert(kept.push(s[i]) == s.take(i + 1).filter(outside(subtree_ids(s, root))));
    assert(subtree_ids(s.take(i + 1), root) == subtree_ids(s.take(i), root));
    {
        lemma_keep_push(s, root, i, kept, origin);
        let k = kept.push(s[i]);
        let o = origin.push(i);
        assert forall|a: int| 0 <= a < o.len() implies 0 <= #[trigger] o[a] < i + 1 && s[o[a]] == k[a] by {
            if a < origin.len() {
                assert(o[a] == origin[a] && k[a] == kept[a]);
            }
        }
        assert forall|j: int| 0 <= j < i + 1 && !subtree_ids(s, root).contains(#[trigger] s[j].id) implies exists|a: int|
            0 <= a < o.len() && #[trigger] o[a] == j by {
            if j == i {
                assert(o[o.len() - 1] == j);
            } else {
                let a = choose|a: int| 0 <= a < origin.len() && #[trigger] origin[a] == j;
                assert(o[a] == j);
            }
        }
        assert forall|a: int| 0 <= a < k.len() implies exists|j: int| 0 <= j < s.len() && #[trigger] k[a] == s[j] by {
            if a < kept.len() {
                let j = choose|j: int| 0 <= j < s.len() && #[trigger] kept[a] == s[j];
                assert(k[a] == kept[a]);
            } else {
                assert(k[a] == s[i]);
            }
        }
    }
}

proof fn lemma_removal_start(s: Seq<UiNode>, root: u64)
    ensures
        removal_inv(s, root, 0, Seq::empty(), Seq::empty(), Seq::empty()),
{
    reveal(removal_inv);
    reveal(Seq::filter);
    assert(s.take(0) =~= Seq::<UiNode>::empty());
}

proof fn lemma_removal_done(
    s: Seq<UiNode>,
    root: u64,
    gone: Seq<u64>,
    kept: Seq<UiNode>,
    origin: Seq<int>,
    next_id: u64,
)
    requires
        scene_wf(s, next_id),
        removal_inv(s, root, s.len() as int, gone, kept, origin),
    ensures
        kept == s.filter(outside(subtree_ids(s, root))),
        scene_wf(kept, next_id),
{
    reveal(scene_wf);
    reveal(removal_inv);
    assert(s.take(s.len() as int) =~= s);
    assert forall|a: int| 0 <= a < kept.len() implies (#[trigger] kept[a]).id < next_id by {
        let j = choose|j: int| 0 <= j < s.len() && #[trigger] kept[a] == s[j];
    }
}

fn contains_id(v: &Vec<u64>, x: u64) -> (r: bool)
    ensures
        r == v@.contains(x),
{
    let mut i: usize = 0;
    while i < v.len()
        invariant
            0 <= i <= v@.len(),
            forall|j: int| 0 <= j < i ==> v@[j] != x,
        decreases v@.len() - i,
    {
        if v[i] == x {
            return true;
        }
        i = i + 1;
    }
    false
}

proof fn lemma_subtree_absent(u: Seq<UiNode>, root: u64)
    requires
        forall|j: int| 0 <= j < u.len() ==> (#[trigger] u[j]).id != root,
    ensures
        subtree_ids(u, root) == Set::<u64>::empty(),
    decreases u.len(),
{
    if u.len() > 0 {
        let d = u.drop_last();
        assert forall|j: int| 0 <= j < d.len() implies (#[trigger] d[j]).id != root by {
            assert(d[j] == u[j]);
        }
        lemma_subtree_absent(d, root);
        assert(u.last() == u[u.len() - 1]);
    }
}

proof fn lemma_filter_keeps_all(u: Seq<UiNode>, p: spec_fn(UiNode) -> bool)
    requires
        forall|j: int| 0 <= j < u.len() ==> p(#[trigger] u[j]),
    ensures
        u.filter(p) == u,
    decreases u.len(),
{
    reveal(Seq::filter);
    if u.len() > 0 {
        let d = u.drop_last();
        assert forall|j: int| 0 <= j < d.len() implies p(#[trigger] d[j]) by {
            assert(d[j] == u[j]);
        }
        lemma_filter_keeps_all(d, p);
        assert(u.last() == u[u.len() - 1]);
        assert(d.push(u.last()) =~= u);
    }
}

pub(crate) proof fn lemma_filter_drops_all(u: Seq<UiNode>, p: spec_fn(UiNode) -> bool)
    requires
        forall|j: int| 0 <= j < u.len() ==> !p(#[trigger] u[j]),
    ensures
        u.filter(p) == Seq::<UiNode>::empty(),
    decreases u.len(),
{
    reveal(Seq::filter);
    if u.len() > 0 {
        let d = u.drop_last();
        assert forall|j: int| 0 <= j < d.len() implies !p(#[trigger] d[j]) by {
            assert(d[j] == u[j]);
        }
        lemma_filter_drops_all(d, p);
        assert(u.last() == u[u.len() - 1]);
    } else {
        assert(u =~= Seq::<UiNode>::empty());
    }
}

pub(crate) proof fn lemma_tree_roots(m: MenuKind, b: u64)
    ensures
        roots_of(menu_tree(m, b), m) == seq![menu_tree(m, b)[0]],
{
    reveal_with_fuel(Seq::filter, 9);
    assert(roots_of(menu_tree(m, b), m) =~= seq![menu_tree(m, b)[0]]);
}

/// In `s + menu_tree(m, b)`, node `n + k` of the new tree joins the subtree under its panel.
proof fn lemma_tree_joins(s: Seq<UiNode>, m: MenuKind, b: u64, k: int)
    requires
        ids_unique(s + menu_tree(m, b)),
        forall|j: int| 0 <= j < s.len() ==> (#[trigger] s[j]).id != b,
        b <= u64::MAX - MENU_NODES,
        0 <= k < 8,
    ensures
        joins_subtree(s + menu_tree(m, b), s.len() + k, b),
    decreases k,
{
    let t = s + menu_tree(m, b);
    let n = s.len() as int;
    let tree = menu_tree(m, b);
    lemma_menu_tree_wf(m, b);
    assert(t[n + k] == tree[k]);
    if k > 0 {
        let pk: int = if k == 3 { 2 } else if k == 5 { 4 } else if k == 7 { 6 } else { 0 };
        assert(t[n + pk] == tree[pk]);
        assert(tree[k].parent == Some(tree[pk].id));
        lemma_tree_joins(s, m, b, pk);
        let u = t.take(n + k);
        lemma_prefix_unique(t, n + k);
        lemma_subtree_member(u, b, n + pk);
        assert(u.take(n + pk) =~= t.take(n + pk));
        assert(u[n + pk] == t[n + pk]);
    }
}

proof fn lemma_old_node_stays(s: Seq<UiNode>, next_id: u64, m: MenuKind, j: int)
    requires
        scene_wf(s, next_id),
        can_spawn(s, next_id),
        0 <= j < s.len(),
    ensures
        !subtree_ids(s + menu_tree(m, fresh_base(s, next_id)), fresh_base(s, next_id)).contains(s[j].id),
{
    reveal(scene_wf);
    let b = fresh_base(s, next_id);
    let t = s + menu_tree(m, b);
    lemma_append_tree_wf(s, next_id, m, b);
    assert(t[j] == s[j]);
    lemma_subtree_member(t, b, j);
    assert(t.take(j) =~= s.take(j));
    assert forall|x: int| 0 <= x < s.take(j).len() implies (#[trigger] s.take(j)[x]).id != b by {
        assert(s.take(j)[x] == s[x]);
    }
    lemma_subtree_absent(s.take(j), b);
}

pub(crate) proof fn lemma_tree_node_goes(s: Seq<UiNode>, next_id: u64, m: MenuKind, k: int)
    requires
        scene_wf(s, next_id),
        can_spawn(s, next_id),
        0 <= k < 8,
    ensures
        subtree_ids(s + menu_tree(m, fresh_base(s, next_id)), fresh_base(s, next_id)).contains(
            menu_tree(m, fresh_base(s, next_id))[k].id,
        ),
{
    reveal(scene_wf);
    let b = fresh_base(s, next_id);
    let t = s + menu_tree(m, b);
    lemma_append_tree_wf(s, next_id, m, b);
    assert forall|j: int| 0 <= j < s.len() implies (#[trigger] s[j]).id != b by {}
    lemma_tree_joins(s, m, b, k);
    lemma_subtree_member(t, b, s.len() + k);
    assert(t[s.len() + k] == menu_tree(m, b)[k]);
}

/// Entering a menu and leaving it at once: no node carries the menu's root
/// marker any more, and the scene holds exactly the nodes it held before.
pub proof fn lemma_enter_then_exit(s: Seq<UiNode>, next_id: u64, m: MenuKind)
    requires
        scene_wf(s, next_id),
        roots_of(s, m).len() == 0,
        can_spawn(s, next_id),
    ensures
        despawned(s + menu_tree(m, fresh_base(s, next_id)), m) == s,
        roots_of(despawned(s + menu_tree(m, fresh_base(s, next_id)), m), m).len() == 0,
{
    reveal(scene_wf);
    let b = fresh_base(s, next_id);
    let tree = menu_tree(m, b);
    let t = s + tree;
    let n = s.len() as int;
    lemma_append_tree_wf(s, next_id, m, b);
    Seq::filter_distributes_over_add(s, tree, is_root_of(m));
    lemma_tree_roots(m, b);
    assert(roots_of(t, m) =~= seq![tree[0]]);
    assert(single_root_of(t, m) == Some(b));
    let gone = subtree_ids(t, b);
    assert forall|j: int| 0 <= j < n implies outside(gone)(#[trigger] s[j]) by {
        lemma_old_node_stays(s, next_id, m, j);
    }
    assert forall|k: int| 0 <= k < tree.len() implies !outside(gone)(#[trigger] tree[k]) by {
        lemma_tree_node_goes(s, next_id, m, k);
    }
    lemma_filter_keeps_all(s, outside(gone));
    Seq::filter_distributes_over_add(s, tree, outside(gone));
    lemma_filter_drops_all(tree, outside(gone));
    assert(t.filter(outside(gone)) =~= s);
}

impl Scene {
    pub open spec fn wf(&self) -> bool {
        scene_wf(self.nodes@, self.next_id)
    }

    pub fn new() -> (r: Scene)
        ensures
            r.nodes@.len() == 0,
            r.next_id == 0,
            r.wf(),
    {
        proof {
            reveal(scene_wf);
        }
        Scene { nodes: Vec::new(), next_id: 0 }
    }

    /// Spawns the tree of menu `m` and returns its root's id; `None`, with
    /// the scene unchanged, when the ids would run out.
    pub fn spawn_menu(&mut self, m: MenuKind) -> (r: Option<u64>)
        ensures
            r is Some <==> can_spawn(old(self).nodes@, old(self).next_id),
            r matches Some(b) ==> {
                &&& b == fresh_base(old(self).nodes@, old(self).next_id)
                &&& final(self).nodes@ == old(self).nodes@ + menu_tree(m, b)
                &&& final(self).next_id == b + MENU_NODES
            },
            r is None ==> *final(self) == *old(self),
            old(self).wf() ==> final(self).wf(),
    {
        let base: u64 = if self.nodes.len() == 0 {
            0
        } else {
            if self.next_id > u64::MAX - MENU_NODES {
                return None;
            }
            self.next_id
        };
        let ghost before = self.nodes@;
        push_tree(&mut self.nodes, m, base);
        self.next_id = base + MENU_NODES;
        proof {
            if old(self).wf() {
                lemma_append_tree_wf(before, old(self).next_id, m, base);
            }
        }
        Some(base)
    }

    /// The one node carrying menu `m`'s root marker, if there is exactly one.
    pub fn single_root(&self, m: MenuKind) -> (r: Option<u64>)
        ensures
            r == single_root_of(self.nodes@, m),
    {
        let ghost s = self.nodes@;
        let mut count: usize = 0;
        let mut first: u64 = 0;
        let mut i: usize = 0;
        while i < self.nodes.len()
            invariant
                0 <= i <= s.len(),
                s == self.nodes@,
                count == (if roots_of(s.take(i as int), m).len() < 2 {
                    roots_of(s.take(i as int), m).len()
                } else {
                    2
                }),
                count > 0 ==> first == roots_of(s.take(i as int), m)[0].id,
            decreases s.len() - i,
        {
            let n = self.nodes[i];
            proof {
                lemma_filter_step(s, i as int, is_root_of(m));
            }
            if n.element == Element::Panel(m) {
                if count == 0 {
                    first = n.id;
                }
                if count < 2 {
                    count = count + 1;
                }
            }
            i = i + 1;
        }
        assert(s.take(s.len() as int) =~= s);
        if count == 1 {
            Some(first)
        } else {
            None
        }
    }

    /// Removes `root` and all its descendants, keeping the order of the rest.
    fn remove_subtree(&mut self, root: u64)
        requires
            old(self).wf(),
        ensures
            final(self).nodes@ == old(self).nodes@.filter(outside(subtree_ids(old(self).nodes@, root))),
            final(self).next_id == old(self).next_id,
            final(self).wf(),
    {
        let ghost s = self.nodes@;
        let mut kept: Vec<UiNode> = Vec::new();
        let mut gone: Vec<u64> = Vec::new();
        let ghost mut origin: Seq<int> = Seq::empty();
        let mut i: usize = 0;
        proof {
            lemma_removal_start(s, root);
        }
        while i < self.nodes.len()
            invariant
                0 <= i <= s.len(),
                s == self.nodes@,
                scene_wf(s, self.next_id),
                removal_inv(s, root, i as int, gone@, kept@, origin),
            decreases s.len() - i,
        {
            let n = self.nodes[i];
            let found = match n.parent {
                Some(p) => contains_id(&gone, p),
                None => false,
            };
            let dies = n.id == root || found;
            proof {
                reveal(scene_wf);
                lemma_removal_step(s, root, i as int, gone@, kept@, origin, dies);
            }
            if dies {
                gone.push(n.id);
            } else {
                proof {
                    origin = origin.push(i as int);
                }
                kept.push(n);
            }
            i = i + 1;
        }
        proof {
            lemma_removal_done(s, root, gone@, kept@, origin, self.next_id);
        }
        self.nodes = kept;
    }

    /// Tears down menu `m`: when exactly one node carries its root marker,
    /// that node and all its descendants go and its id is returned; else
    /// nothing changes.
    pub fn despawn_menu(&mut self, m: MenuKind) -> (r: Option<u64>)
        requires
            old(self).wf(),
        ensures
            r == single_root_of(old(self).nodes@, m),
            final(self).nodes@ == despawned(old(self).nodes@, m),
            final(self).next_id == old(self).next_id,
            final(self).wf(),
    {
        let r = self.single_root(m);
        if let Some(root) = r {
            self.remove_subtree(root);
        }
        r
    }
}

} // verus!
