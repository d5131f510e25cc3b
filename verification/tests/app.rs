use rreact::{drop_instance, run_component, use_state, App, HookStore, Patch, VNode};

#[test]
fn tick_returns_none_when_nothing_is_dirty() {
    let mut store: HookStore<i32> = HookStore::new();
    let mut app = App::mount(&mut store, 100, |_s: &mut HookStore<i32>| VNode::text("hello"));
    assert!(app.tick(&mut store).is_none());
    drop_instance(&mut store, 100);
}

#[test]
fn tick_re_renders_and_diffs_when_root_state_changes() {
    let mut store: HookStore<i32> = HookStore::new();
    let root_id = 101;
    let setter = run_component(&mut store, root_id, |s: &mut HookStore<i32>| {
        let (_count, set) = use_state(s, || 0i32);
        set
    });
    let mut app = App::mount(&mut store, root_id, move |s: &mut HookStore<i32>| {
        let (count, _set) = use_state(s, || 0i32);
        VNode::text(&count.to_string())
    });
    assert!(matches!(app.tree(), VNode::Text(t) if t == "0"));

    setter.set(&mut store, 1);
    let patch = app.tick(&mut store).expect("state change must produce a patch");
    assert!(matches!(patch, Patch::UpdateText(ref t) if t == "1"));
    assert!(matches!(app.tree(), VNode::Text(t) if t == "1"));

    assert!(app.tick(&mut store).is_none(), "tick must be idempotent once nothing is dirty");
    drop_instance(&mut store, root_id);
}

#[test]
fn tick_re_evaluates_nested_components_defined_inside_the_render_fn() {
    let mut store: HookStore<i32> = HookStore::new();
    let root_id = 102;
    let child_id = 103;
    let child_setter = run_component(&mut store, child_id, |s: &mut HookStore<i32>| {
        let (_count, set) = use_state(s, || 0i32);
        set
    });
    let mut app = App::mount(&mut store, root_id, move |s: &mut HookStore<i32>| {
        run_component(s, child_id, |c: &mut HookStore<i32>| {
            let (count, _set) = use_state(c, || 0i32);
            VNode::text(&format!("child:{count}"))
        })
    });
    assert!(matches!(app.tree(), VNode::Text(t) if t == "child:0"));

    child_setter.set(&mut store, 5);
    let patch = app.tick(&mut store).expect("nested component's state change must be observed by the app loop");
    assert!(matches!(patch, Patch::UpdateText(ref t) if t == "child:5"));

    drop_instance(&mut store, root_id);
    drop_instance(&mut store, child_id);
}
