use vstd::prelude::*;
use crate::scene::{
    can_spawn, despawned, fresh_base, lemma_filter_drops_all, lemma_menu_tree_wf, lemma_tree_node_goes,
    lemma_tree_roots, menu_roles, menu_tree, outside, roots_of, scene_wf, single_root_of, subtree_ids,
    Element, Scene, UiNode,
};
use crate::state::{
    lemma_options_back_toggle, menu_for, menu_of, nav_depth, nav_role, navigate, press_target, react,
    reaction, AppState, ButtonRole, Interaction, MenuKind, Shade,
};

verus! {

/// A message for the host, drained once per frame.
#[derive(Clone, Copy, Debug, PartialEq, Eq, Structural)]
pub enum Effect {
    /// Build this node.
    Spawn(UiNode),
    /// Remove this root and everything under it.
    Despawn(u64),
    /// Repaint a button.
    Recolor(u64, Shade),
    /// Terminate the application.
    Quit,
}

/// The pointer's interaction with a node, as reported for this frame.
#[derive(Clone, Copy, Debug, PartialEq, Eq, Structural)]
pub struct PointerEvent {
    pub node: u64,
    pub now: Interaction,
}

/// Owns the active state, the pending state request, the scene graph and the outbox.
pub struct MenuController {
    pub state: AppState,
    pub pending: Option<AppState>,
    pub scene: Scene,
    pub outbox: Vec<Effect>,
}

/// The controller as contracts see it.
pub struct ControllerView {
    pub state: AppState,
    pub pending: Option<AppState>,
    pub nodes: Seq<UiNode>,
    pub next_id: u64,
    pub outbox: Seq<Effect>,
}

impl View for MenuController {
    type V = ControllerView;

    open spec fn view(&self) -> ControllerView {
        ControllerView {
            state: self.state,
            pending: self.pending,
            nodes: self.scene.nodes@,
            next_id: self.scene.next_id,
            outbox: self.outbox@,
        }
    }
}

/// The ids of the nodes, in order.
pub open spec fn node_ids(nodes: Seq<UiNode>) -> Seq<u64> {
    nodes.map_values(|n: UiNode| n.id)
}

/// The last place of `id` in `ids`.
pub open spec fn index_of(ids: Seq<u64>, id: u64) -> Option<int>
    decreases ids.len(),
{
    if ids.len() == 0 {
        None
    } else if ids.last() == id {
        Some(ids.len() - 1)
    } else {
        index_of(ids.drop_last(), id)
    }
}

/// The messages that announce each node of a new tree, in order.
pub open spec fn spawn_effects(t: Seq<UiNode>) -> Seq<Effect> {
    t.map_values(|n: UiNode| Effect::Spawn(n))
}

/// The outbox after a reaction of button `id`: a repaint if it asks for
/// one, then a termination request if it asks for one.
pub open spec fn react_effects(out: Seq<Effect>, id: u64, shade: Option<Shade>, quit: bool) -> Seq<Effect> {
    let o = match shade {
        Some(c) => out.push(Effect::Recolor(id, c)),
        None => out,
    };
    if quit { o.push(Effect::Quit) } else { o }
}

/// One pointer report: only a button whose interaction has changed reacts.
pub open spec fn after_pointer(v: ControllerView, ev: PointerEvent) -> ControllerView {
    match index_of(node_ids(v.nodes), ev.node) {
        None => v,
        Some(i) => {
            let n = v.nodes[i];
            match n.element {
                Element::Button(role) => if n.interaction == ev.now {
                    v
                } else {
                    let r = reaction(v.state, role, ev.now);
                    let shade = match r.shade {
                        Some(c) => c,
                        None => n.shade,
                    };
                    ControllerView {
                        state: v.state,
                        pending: match r.request {
                            Some(t) => Some(t),
                            None => v.pending,
                        },
                        nodes: v.nodes.update(
                            i,
                            UiNode {
                                id: n.id,
                                parent: n.parent,
                                element: n.element,
                                interaction: ev.now,
                                shade,
                            },
                        ),
                        next_id: v.next_id,
                        outbox: react_effects(v.outbox, n.id, r.shade, r.quit),
                    }
                },
                _ => v,
            }
        },
    }
}

pub open spec fn after_pointers(v: ControllerView, evs: Seq<PointerEvent>) -> ControllerView
    decreases evs.len(),
{
    if evs.len() == 0 {
        v
    } else {
        after_pointer(after_pointers(v, evs.drop_last()), evs.last())
    }
}

/// The Space key asks for the game while the main menu is active.
pub open spec fn after_space(v: ControllerView) -> ControllerView {
    if v.state == AppState::MainMenu {
        ControllerView { pending: Some(AppState::InGame), ..v }
    } else {
        v
    }
}

/// Leaving the active state's menu: its tree goes, and the host is told to remove its root.
pub open spec fn leave_menu(v: ControllerView) -> ControllerView {
    match menu_of(v.state) {
        Some(m) => ControllerView {
            nodes: despawned(v.nodes, m),
            outbox: match single_root_of(v.nodes, m) {
                Some(r) => v.outbox.push(Effect::Despawn(r)),
                None => v.outbox,
            },
            ..v
        },
        None => v,
    }
}

/// Entering state `t`: its menu's tree is built, and the host is told each new node.
pub open spec fn enter_state(v: ControllerView, t: AppState) -> ControllerView {
    match menu_of(t) {
        Some(m) => if can_spawn(v.nodes, v.next_id) {
            let b = fresh_base(v.nodes, v.next_id);
            ControllerView {
                state: t,
                nodes: v.nodes + menu_tree(m, b),
                next_id: (b + 8) as u64,
                outbox: v.outbox + spawn_effects(menu_tree(m, b)),
                ..v
            }
        } else {
            ControllerView { state: t, ..v }
        },
        None => ControllerView { state: t, ..v },
    }
}

/// The frame boundary: a pending request for another state is applied,
/// leaving the old state's menu before entering the new one's.
pub open spec fn after_boundary(v: ControllerView) -> ControllerView {
    match v.pending {
        None => v,
        Some(t) => {
            let w = ControllerView { pending: None, ..v };
            if t == v.state {
                w
            } else {
                enter_state(leave_menu(w), t)
            }
        },
    }
}

/// One frame: the boundary, then the key, then the pointer reports in order.
pub open spec fn after_frame(v: ControllerView, space: bool, evs: Seq<PointerEvent>) -> ControllerView {
    let w = after_boundary(v);
    after_pointers(if space { after_space(w) } else { w }, evs)
}

/// How many termination requests a sequence of messages holds.
pub open spec fn quits(out: Seq<Effect>) -> nat
    decreases out.len(),
{
    if out.len() == 0 {
        0
    } else {
        quits(out.drop_last()) + if out.last() == Effect::Quit { 1nat } else { 0nat }
    }
}

/// `k` frames in a row, each with the same pointer reports and no key.
pub open spec fn frames(v: ControllerView, evs: Seq<PointerEvent>, k: nat) -> ControllerView
    decreases k,
{
    if k == 0 {
        v
    } else {
        after_frame(frames(v, evs, (k - 1) as nat), false, evs)
    }
}

pub open spec fn press(x: u64) -> PointerEvent {
    PointerEvent { node: x, now: Interaction::Pressed }
}

proof fn lemma_single_pointer(v: ControllerView, ev: PointerEvent)
    ensures
        after_frame(v, false, seq![ev]) == after_pointer(after_boundary(v), ev),
{
    reveal_with_fuel(after_pointers, 2);
    assert(seq![ev].drop_last() =~= Seq::<PointerEvent>::empty());
    assert(seq![ev].last() == ev);
}

proof fn lemma_index_of(ids: Seq<u64>, x: u64)
    ensures
        index_of(ids, x) matches Some(i) ==> 0 <= i < ids.len() && ids[i] == x,
    decreases ids.len(),
{
    if ids.len() > 0 && ids.last() != x {
        lemma_index_of(ids.drop_last(), x);
    }
}

/// While button `x` stays pressed and no state change is pending, frames
/// that keep reporting it pressed change nothing.
proof fn lemma_held_button_is_steady(v: ControllerView, x: u64, k: nat)
    requires
        v.pending is None,
        index_of(node_ids(v.nodes), x) matches Some(i) && 0 <= i < v.nodes.len() && v.nodes[i].element is Button
            && v.nodes[i].interaction == Interaction::Pressed,
    ensures
        frames(v, seq![press(x)], k) == v,
    decreases k,
{
    if k > 0 {
        lemma_held_button_is_steady(v, x, (k - 1) as nat);
        lemma_single_pointer(v, press(x));
    }
}

/// Pressing Exit in the main menu asks for termination exactly once, however
/// many frames follow in which the pointer still holds it pressed without a
/// new press.
pub proof fn lemma_exit_requested_once(v: ControllerView, x: u64, k: nat)
    requires
        v.state == AppState::MainMenu,
        v.pending is None,
        index_of(node_ids(v.nodes), x) matches Some(i) && 0 <= i < v.nodes.len() && v.nodes[i].element == Element::Button(
            ButtonRole::Exit,
        ) && v.nodes[i].interaction != Interaction::Pressed,
    ensures
        quits(frames(after_frame(v, false, seq![press(x)]), seq![press(x)], k).outbox) == quits(v.outbox) + 1,
{
    lemma_single_pointer(v, press(x));
    let v1 = after_frame(v, false, seq![press(x)]);
    let i = index_of(node_ids(v.nodes), x)->0;
    lemma_index_of(node_ids(v.nodes), x);
    assert(v1 == after_pointer(v, press(x)));
    assert forall|j: int| 0 <= j < v.nodes.len() implies #[trigger] v1.nodes[j].id == v.nodes[j].id by {}
    assert(node_ids(v1.nodes) =~= node_ids(v.nodes));
    assert(v1.outbox == v.outbox.push(Effect::Quit));
    assert(v1.outbox.drop_last() =~= v.outbox);
    lemma_held_button_is_steady(v1, x, k);
}

/// Same ids, parents and elements, place by place: only looks differ.
pub open spec fn same_shape(a: Seq<UiNode>, b: Seq<UiNode>) -> bool {
    &&& a.len() == b.len()
    &&& forall|i: int|
        0 <= i < a.len() ==> (#[trigger] a[i]).id == b[i].id && a[i].parent == b[i].parent
            && a[i].element == b[i].element
}

/// Between clicks: nothing pending, the active state's menu on screen as
/// built from id zero, and no button held down.
pub open spec fn at_rest(v: ControllerView) -> bool {
    &&& v.pending is None
    &&& v.next_id == 8
    &&& match menu_of(v.state) {
        Some(m) => same_shape(v.nodes, menu_tree(m, 0)),
        None => v.nodes.len() == 0,
    }
    &&& forall|i: int| 0 <= i < v.nodes.len() ==> (#[trigger] v.nodes[i]).interaction != Interaction::Pressed
}

/// The last place of a button with this role.
pub open spec fn role_index(nodes: Seq<UiNode>, role: ButtonRole) -> Option<int>
    decreases nodes.len(),
{
    if nodes.len() == 0 {
        None
    } else if nodes.last().element == Element::Button(role) {
        Some(nodes.len() - 1)
    } else {
        role_index(nodes.drop_last(), role)
    }
}

pub open spec fn hover(x: u64) -> PointerEvent {
    PointerEvent { node: x, now: Interaction::Hovered }
}

/// A click on the button with `role`, if one is on screen: pressed and
/// released under the pointer in one frame, then the next frame's boundary.
pub open spec fn click(v: ControllerView, role: ButtonRole) -> ControllerView {
    match role_index(v.nodes, role) {
        Some(i) => after_frame(after_frame(v, false, seq![press(v.nodes[i].id), hover(v.nodes[i].id)]), false, Seq::empty()),
        None => after_frame(v, false, Seq::empty()),
    }
}

/// Clicks on Options (`true`) and Back (`false`) in order.
pub open spec fn clicks(v: ControllerView, presses: Seq<bool>) -> ControllerView
    decreases presses.len(),
{
    if presses.len() == 0 {
        v
    } else {
        click(clicks(v, presses.drop_last()), nav_role(presses.last()))
    }
}

/// Where each button of menu `m` stands in its tree.
pub open spec fn slot(m: MenuKind, role: ButtonRole) -> Option<int> {
    let (a, b, c) = menu_roles(m);
    if role == a { Some(2) } else if role == b { Some(4) } else if role == c { Some(6) } else { None }
}

proof fn lemma_tree_slots(m: MenuKind, role: ButtonRole)
    ensures
        role_index(menu_tree(m, 0), role) == slot(m, role),
{
    reveal_with_fuel(role_index, 9);
    let t = menu_tree(m, 0);
    assert(t.drop_last() =~= t.take(7));
    assert(t.take(7).drop_last() =~= t.take(6));
    assert(t.take(6).drop_last() =~= t.take(5));
    assert(t.take(5).drop_last() =~= t.take(4));
    assert(t.take(4).drop_last() =~= t.take(3));
    assert(t.take(3).drop_last() =~= t.take(2));
    assert(t.take(2).drop_last() =~= t.take(1));
    assert(t.take(1).drop_last() =~= t.take(0));
}

proof fn lemma_shape_role_index(a: Seq<UiNode>, b: Seq<UiNode>, role: ButtonRole)
    requires
        same_shape(a, b),
    ensures
        role_index(a, role) == role_index(b, role),
    decreases a.len(),
{
    if a.len() > 0 {
        assert(a.last() == a[a.len() - 1] && b.last() == b[b.len() - 1]);
        let (da, db) = (a.drop_last(), b.drop_last());
        assert forall|i: int| 0 <= i < da.len() implies (#[trigger] da[i]).id == db[i].id && da[i].parent
            == db[i].parent && da[i].element == db[i].element by {
            assert(da[i] == a[i] && db[i] == b[i]);
        }
        lemma_shape_role_index(da, db, role);
    }
}

proof fn lemma_shape_subtree(a: Seq<UiNode>, b: Seq<UiNode>, r: u64)
    requires
        same_shape(a, b),
    ensures
        subtree_ids(a, r) == subtree_ids(b, r),
    decreases a.len(),
{
    if a.len() > 0 {
        assert(a.last() == a[a.len() - 1] && b.last() == b[b.len() - 1]);
        let (da, db) = (a.drop_last(), b.drop_last());
        assert forall|i: int| 0 <= i < da.len() implies (#[trigger] da[i]).id == db[i].id && da[i].parent
            == db[i].parent && da[i].element == db[i].element by {
            assert(da[i] == a[i] && db[i] == b[i]);
        }
        lemma_shape_subtree(da, db, r);
    }
}

proof fn lemma_shape_roots(a: Seq<UiNode>, b: Seq<UiNode>, m: MenuKind)
    requires
        same_shape(a, b),
    ensures
        roots_of(a, m).len() == roots_of(b, m).len(),
        forall|k: int| 0 <= k < roots_of(a, m).len() ==> (#[trigger] roots_of(a, m)[k]).id == roots_of(b, m)[k].id,
    decreases a.len(),
{
    reveal(Seq::filter);
    if a.len() > 0 {
        assert(a.last() == a[a.len() - 1] && b.last() == b[b.len() - 1]);
        let (da, db) = (a.drop_last(), b.drop_last());
        assert forall|i: int| 0 <= i < da.len() implies (#[trigger] da[i]).id == db[i].id && da[i].parent
            == db[i].parent && da[i].element == db[i].element by {
            assert(da[i] == a[i] && db[i] == b[i]);
        }
        lemma_shape_roots(da, db, m);
    }
}

/// Leaving a menu that stands as built removes all of it.
proof fn lemma_leave_whole_menu(nodes: Seq<UiNode>, m: MenuKind)
    requires
        same_shape(nodes, menu_tree(m, 0)),
    ensures
        single_root_of(nodes, m) == Some(0u64),
        despawned(nodes, m) == Seq::<UiNode>::empty(),
{
    let t = menu_tree(m, 0);
    lemma_tree_roots(m, 0);
    lemma_shape_roots(nodes, t, m);
    lemma_shape_subtree(nodes, t, 0);
    lemma_menu_tree_wf(m, 0);
    assert(roots_of(t, m)[0].id == 0);
    assert(Seq::<UiNode>::empty() + t =~= t);
    assert(scene_wf(Seq::<UiNode>::empty(), 0)) by {
        reveal(scene_wf);
    }
    assert forall|k: int| 0 <= k < nodes.len() implies !outside(subtree_ids(nodes, 0))(#[trigger] nodes[k]) by {
        lemma_tree_node_goes(Seq::<UiNode>::empty(), 0, m, k);
    }
    lemma_filter_drops_all(nodes, outside(subtree_ids(nodes, 0)));
}

proof fn lemma_index_of_identity(ids: Seq<u64>, k: int)
    requires
        forall|j: int| 0 <= j < ids.len() ==> #[trigger] ids[j] == j,
        0 <= k < ids.len(),
    ensures
        index_of(ids, k as u64) == Some(k),
    decreases ids.len(),
{
    if k < ids.len() - 1 {
        let d = ids.drop_last();
        assert forall|j: int| 0 <= j < d.len() implies #[trigger] d[j] == j by {
            assert(d[j] == ids[j]);
        }
        lemma_index_of_identity(d, k);
    }
}

proof fn lemma_tree_index(nodes: Seq<UiNode>, m: MenuKind, k: int)
    requires
        same_shape(nodes, menu_tree(m, 0)),
        0 <= k < 8,
    ensures
        index_of(node_ids(nodes), k as u64) == Some(k),
        nodes[k].id == k,
{
    lemma_menu_tree_wf(m, 0);
    let ids = node_ids(nodes);
    assert forall|j: int| 0 <= j < ids.len() implies #[trigger] ids[j] == j by {
        assert(menu_tree(m, 0)[j].id == j);
    }
    lemma_index_of_identity(ids, k);
    assert(menu_tree(m, 0)[k].id == k);
}

/// The pointer presses and releases button `i` of a menu at rest: the
/// press's request is pending, and the menu still stands with no button held.
proof fn lemma_press_release(v: ControllerView, m: MenuKind, role: ButtonRole, i: int)
    requires
        at_rest(v),
        menu_of(v.state) == Some(m),
        slot(m, role) == Some(i),
    ensures
        ({
            let v2 = after_frame(v, false, seq![press(v.nodes[i].id), hover(v.nodes[i].id)]);
            &&& v2.state == v.state
            &&& v2.next_id == 8
            &&& v2.pending == press_target(v.state, role)
            &&& same_shape(v2.nodes, menu_tree(m, 0))
            &&& forall|j: int| 0 <= j < v2.nodes.len() ==> (#[trigger] v2.nodes[j]).interaction != Interaction::Pressed
        }),
{
    reveal_with_fuel(after_pointers, 3);
    let t = menu_tree(m, 0);
    lemma_menu_tree_wf(m, 0);
    lemma_tree_index(v.nodes, m, i);
    let x = v.nodes[i].id;
    let evs = seq![press(x), hover(x)];
    assert(evs.drop_last() =~= seq![press(x)]);
    assert(seq![press(x)].drop_last() =~= Seq::<PointerEvent>::empty());
    assert(v.nodes[i].element == t[i].element);
    let v1 = after_pointer(v, press(x));
    assert(node_ids(v1.nodes) =~= node_ids(v.nodes));
    let v2 = after_pointer(v1, hover(x));
    assert(after_frame(v, false, evs) == v2);
}

/// The boundary after a click: a pending move to another state replaces the
/// menu on screen with the new state's, built from id zero.
proof fn lemma_boundary_after_click(v2: ControllerView, m: MenuKind)
    requires
        menu_of(v2.state) == Some(m),
        v2.next_id == 8,
        same_shape(v2.nodes, menu_tree(m, 0)),
        forall|j: int| 0 <= j < v2.nodes.len() ==> (#[trigger] v2.nodes[j]).interaction != Interaction::Pressed,
        v2.pending matches Some(t) ==> t != v2.state,
    ensures
        at_rest(after_frame(v2, false, Seq::empty())),
        after_frame(v2, false, Seq::empty()).state == match v2.pending {
            Some(t) => t,
            None => v2.state,
        },
{
    match v2.pending {
        None => {},
        Some(target) => {
            let w = ControllerView { pending: None, ..v2 };
            lemma_leave_whole_menu(v2.nodes, m);
            let l = leave_menu(w);
            assert(l.nodes == Seq::<UiNode>::empty());
            match menu_of(target) {
                None => {},
                Some(m2) => {
                    let e = enter_state(l, target);
                    assert(e.nodes =~= menu_tree(m2, 0));
                },
            }
        },
    }
}

/// A click moves between states as `navigate` says, and leaves the
/// controller at rest again.
pub proof fn lemma_click_navigates(v: ControllerView, role: ButtonRole)
    requires
        at_rest(v),
    ensures
        click(v, role).state == navigate(v.state, role),
        at_rest(click(v, role)),
{
    match menu_of(v.state) {
        None => {
            assert(role_index(v.nodes, role) is None);
        },
        Some(m) => {
            let t = menu_tree(m, 0);
            lemma_shape_role_index(v.nodes, t, role);
            lemma_tree_slots(m, role);
            match slot(m, role) {
                None => {
                    assert(press_target(v.state, role) is None);
                },
                Some(i) => {
                    lemma_press_release(v, m, role, i);
                    let v2 = after_frame(v, false, seq![press(v.nodes[i].id), hover(v.nodes[i].id)]);
                    lemma_boundary_after_click(v2, m);
                },
            }
        },
    }
}

/// Options and Back toggle between the two menus: from the main menu at
/// rest, after any sequence of clicks on them the options menu is active
/// exactly when the sequence ends one level deep.
pub proof fn lemma_clicks_toggle(v: ControllerView, presses: Seq<bool>)
    requires
        at_rest(v),
        v.state == AppState::MainMenu,
    ensures
        at_rest(clicks(v, presses)),
        clicks(v, presses).state == (if nav_depth(presses) == 0 {
            AppState::MainMenu
        } else {
            AppState::OptionsMenu
        }),
    decreases presses.len(),
{
    lemma_options_back_toggle(presses);
    if presses.len() > 0 {
        let d = presses.drop_last();
        lemma_clicks_toggle(v, d);
        lemma_options_back_toggle(d);
        lemma_click_navigates(clicks(v, d), nav_role(presses.last()));
    }
}

impl MenuController {
    pub open spec fn wf(&self) -> bool {
        self.scene.wf()
    }

    /// Starts in the main menu, whose tree is built at once.
    pub fn new() -> (r: MenuController)
        ensures
            r.wf(),
            r@.state == AppState::MainMenu,
            r@.pending is None,
            r@.nodes == menu_tree(crate::state::MenuKind::Main, 0),
            r@.next_id == 8,
            r@.outbox == spawn_effects(menu_tree(crate::state::MenuKind::Main, 0)),
            at_rest(r@),
    {
        let mut c = MenuController {
            state: AppState::InGame,
            pending: None,
            scene: Scene::new(),
            outbox: Vec::new(),
        };
        c.enter(AppState::MainMenu);
        assert(c.scene.nodes@ =~= menu_tree(crate::state::MenuKind::Main, 0));
        assert(c.outbox@ =~= spawn_effects(menu_tree(crate::state::MenuKind::Main, 0)));
        c
    }

    fn find(&self, id: u64) -> (r: Option<usize>)
        ensures
            match r {
                Some(i) => index_of(node_ids(self.scene.nodes@), id) == Some(i as int) && i < self.scene.nodes@.len(),
                None => index_of(node_ids(self.scene.nodes@), id) is None,
            },
    {
        let ghost ids = node_ids(self.scene.nodes@);
        let mut k: usize = self.scene.nodes.len();
        assert(ids.take(k as int) =~= ids);
        while k > 0
            invariant
                0 <= k <= ids.len(),
                ids == node_ids(self.scene.nodes@),
                index_of(ids, id) == index_of(ids.take(k as int), id),
            decreases k,
        {
            let ghost pre = ids.take(k as int);
            assert(pre.drop_last() =~= ids.take(k - 1));
            if self.scene.nodes[k - 1].id == id {
                return Some(k - 1);
            }
            k = k - 1;
        }
        None
    }

    #[verifier::rlimit(50)]
    fn enter(&mut self, t: AppState)
        requires
            old(self).wf(),
        ensures
            final(self).wf(),
            final(self)@ == enter_state(old(self)@, t),
    {
        if let Some(m) = menu_for(t) {
            let start = self.scene.nodes.len();
            let ghost out0 = self.outbox@;
            let ghost v = self@;
            let spawned = self.scene.spawn_menu(m);
            if let Some(b) = spawned {
                let ghost tree = menu_tree(m, b);
                let ghost scene_after = self.scene.nodes@;
                let mut k: usize = start;
                while k < self.scene.nodes.len()
                    invariant
                        self.scene.wf(),
                        self.scene.nodes@ == scene_after,
                        scene_after == v.nodes + tree,
                        self.scene.next_id == b + 8,
                        self.state == v.state,
                        self.pending == v.pending,
                        start <= k <= self.scene.nodes@.len(),
                        self.scene.nodes@.len() == start + 8,
                        self.scene.nodes@.subrange(start as int, start + 8) == tree,
                        self.outbox@ == out0 + spawn_effects(tree.take(k - start)),
                    decreases self.scene.nodes@.len() - k,
                {
                    let n = self.scene.nodes[k];
                    proof {
                        assert(n == tree[k - start]);
                        assert(spawn_effects(tree.take(k - start + 1)) =~= spawn_effects(
                            tree.take(k - start),
                        ).push(Effect::Spawn(n)));
                    }
                    self.outbox.push(Effect::Spawn(n));
                    k = k + 1;
                }
                proof {
                    assert(self.scene.nodes@.subrange(start as int, start + 8) =~= tree);
                    assert(tree.take(8) =~= tree);
                }
            }
        }
        self.state = t;
    }

    fn leave(&mut self)
        requires
            old(self).wf(),
        ensures
            final(self).wf(),
            final(self)@ == leave_menu(old(self)@),
    {
        let ghost v = self@;
        if let Some(m) = menu_for(self.state) {
            let r = self.scene.despawn_menu(m);
            if let Some(root) = r {
                self.outbox.push(Effect::Despawn(root));
            }
            assert(self@.nodes == despawned(v.nodes, m));
            assert(self@ == leave_menu(v));
        }
    }

    /// The frame boundary: applies a pending state request.
    pub fn boundary(&mut self)
        requires
            old(self).wf(),
        ensures
            final(self).wf(),
            final(self)@ == after_boundary(old(self)@),
    {
        if let Some(t) = self.pending {
            self.pending = None;
            if t != self.state {
                self.leave();
                self.enter(t);
            }
        }
    }

    /// The Space key was just pressed.
    pub fn space_pressed(&mut self)
        requires
            old(self).wf(),
        ensures
            final(self).wf(),
            final(self)@ == after_space(old(self)@),
    {
        if let AppState::MainMenu = self.state {
            self.pending = Some(AppState::InGame);
        }
    }

    /// One pointer report: a button whose interaction changed is repainted
    /// or acted on as the active state's handler says.
    pub fn pointer(&mut self, ev: PointerEvent)
        requires
            old(self).wf(),
        ensures
            final(self).wf(),
            final(self)@ == after_pointer(old(self)@, ev),
    {
        if let Some(i) = self.find(ev.node) {
            let n = self.scene.nodes[i];
            if let Element::Button(role) = n.element {
                if n.interaction != ev.now {
                    let r = react(self.state, role, ev.now);
                    let shade = match r.shade {
                        Some(c) => c,
                        None => n.shade,
                    };
                    let ghost before = self.scene.nodes@;
                    self.scene.nodes.set(
                        i,
                        UiNode {
                            id: n.id,
                            parent: n.parent,
                            element: n.element,
                            interaction: ev.now,
                            shade,
                        },
                    );
                    if let Some(c) = r.shade {
                        self.outbox.push(Effect::Recolor(n.id, c));
                    }
                    if let Some(t) = r.request {
                        self.pending = Some(t);
                    }
                    if r.quit {
                        self.outbox.push(Effect::Quit);
                    }
                    proof {
                        lemma_same_shape_wf(before, self.scene.nodes@, self.scene.next_id);
                    }
                }
            }
        }
    }

    /// One frame: the boundary, the Space key if it was just pressed, then
    /// the pointer reports in order.
    pub fn frame(&mut self, space: bool, events: &Vec<PointerEvent>)
        requires
            old(self).wf(),
        ensures
            final(self).wf(),
            final(self)@ == after_frame(old(self)@, space, events@),
    {
        self.boundary();
        if space {
            self.space_pressed();
        }
        let ghost start = self@;
        let mut k: usize = 0;
        while k < events.len()
            invariant
                0 <= k <= events@.len(),
                self.wf(),
                self@ == after_pointers(start, events@.take(k as int)),
            decreases events@.len() - k,
        {
            proof {
                assert(events@.take(k + 1).drop_last() =~= events@.take(k as int));
            }
            self.pointer(events[k]);
            k = k + 1;
        }
        assert(events@.take(events@.len() as int) =~= events@);
    }

    /// Hands the queued messages to the host and empties the queue.
    pub fn take_effects(&mut self) -> (r: Vec<Effect>)
        requires
            old(self).wf(),
        ensures
            final(self).wf(),
            r@ == old(self)@.outbox,
            final(self)@ == (ControllerView { outbox: Seq::empty(), ..old(self)@ }),
    {
        let mut r: Vec<Effect> = Vec::new();
        std::mem::swap(&mut r, &mut self.outbox);
        assert(self@ == (ControllerView { outbox: Seq::empty(), ..old(self)@ }));
        r
    }

    pub fn state(&self) -> (r: AppState)
        ensures
            r == self.state,
    {
        self.state
    }

    /// The id of the button with this role, if one is on screen.
    pub fn button_of(&self, role: ButtonRole) -> (r: Option<u64>)
        ensures
            match r {
                Some(id) => exists|i: int|
                    0 <= i < self.scene.nodes@.len() && self.scene.nodes@[i].id == id
                        && self.scene.nodes@[i].element == Element::Button(role),
                None => forall|i: int|
                    0 <= i < self.scene.nodes@.len() ==> self.scene.nodes@[i].element != Element::Button(role),
            },
    {
        let mut k: usize = 0;
        while k < self.scene.nodes.len()
            invariant
                0 <= k <= self.scene.nodes@.len(),
                forall|i: int| 0 <= i < k ==> self.scene.nodes@[i].element != Element::Button(role),
            decreases self.scene.nodes@.len() - k,
        {
            if self.scene.nodes[k].element == Element::Button(role) {
                return Some(self.scene.nodes[k].id);
            }
            k = k + 1;
        }
        None
    }
}

/// Changing what a node looks like, not which node it is, keeps the scene well formed.
proof fn lemma_same_shape_wf(a: Seq<UiNode>, b: Seq<UiNode>, next_id: u64)
    requires
        scene_wf(a, next_id),
        a.len() == b.len(),
        forall|i: int| 0 <= i < a.len() ==> (#[trigger] b[i]).id == a[i].id && b[i].parent == a[i].parent,
    ensures
        scene_wf(b, next_id),
{
    reveal(scene_wf);
    assert forall|i: int, j: int| 0 <= i < j < b.len() implies #[trigger] b[i].id != #[trigger] b[j].id by {
        assert(a[i].id == b[i].id && a[j].id == b[j].id);
    }
    assert forall|i: int|
        0 <= i < b.len() && (#[trigger] b[i]).parent is Some implies exists|j: int|
            0 <= j < i && (#[trigger] b[j]).id == b[i].parent->0 by {
        assert(a[i].parent == b[i].parent);
        let j = choose|j: int| 0 <= j < i && (#[trigger] a[j]).id == a[i].parent->0;
        assert(b[j].id == a[j].id);
    }
    assert forall|i: int| 0 <= i < b.len() implies (#[trigger] b[i]).id < next_id by {
        assert(a[i].id == b[i].id);
    }
}

} // verus!
