use rreact::{drop_instance, run_component, take_dirty, use_state, HookStore};

#[test]
fn use_state_returns_initial_value_on_first_render() {
    let mut store: HookStore<i32> = HookStore::new();
    let id = 1;
    let value = run_component(&mut store, id, |s: &mut HookStore<i32>| {
        let (count, _set) = use_state(s, || 0i32);
        count
    });
    assert_eq!(value, 0);
    drop_instance(&mut store, id);
}

#[test]
fn setter_updates_value_seen_on_next_render() {
    let mut store: HookStore<i32> = HookStore::new();
    let id = 2;
    let setter = run_component(&mut store, id, |s: &mut HookStore<i32>| {
        let (_count, set) = use_state(s, || 0i32);
        set
    });
    setter.set(&mut store, 5);
    let value = run_component(&mut store, id, |s: &mut HookStore<i32>| {
        let (count, _set) = use_state(s, || 0i32);
        count
    });
    assert_eq!(value, 5);
    drop_instance(&mut store, id);
}

#[test]
fn update_reads_previous_value() {
    let mut store: HookStore<i32> = HookStore::new();
    let id = 3;
    let setter = run_component(&mut store, id, |s: &mut HookStore<i32>| {
        let (_count, set) = use_state(s, || 10i32);
        set
    });
    setter.update(&mut store, |prev: &i32| prev + 1);
    let value = run_component(&mut store, id, |s: &mut HookStore<i32>| {
        let (count, _set) = use_state(s, || 10i32);
        count
    });
    assert_eq!(value, 11);
    drop_instance(&mut store, id);
}

#[test]
fn setter_marks_component_dirty_and_take_dirty_consumes_it() {
    let mut store: HookStore<i32> = HookStore::new();
    let id = 4;
    let setter = run_component(&mut store, id, |s: &mut HookStore<i32>| {
        let (_count, set) = use_state(s, || 0i32);
        set
    });
    assert!(!take_dirty(&mut store, id));
    setter.set(&mut store, 1);
    assert!(take_dirty(&mut store, id));
    assert!(!take_dirty(&mut store, id), "take_dirty must consume the flag");
    drop_instance(&mut store, id);
}

/// One store holds one type of state value; a component with a name and an
/// age keeps both kinds of value in it.
#[derive(Clone, Debug, PartialEq)]
enum Slot {
    Name(String),
    Age(i32),
}

#[test]
fn multiple_hooks_in_one_component_track_independent_slots() {
    let mut store: HookStore<Slot> = HookStore::new();
    let id = 5;
    let (name_setter, age_setter) = run_component(&mut store, id, |s: &mut HookStore<Slot>| {
        let (_name, set_name) = use_state(s, || Slot::Name("alice".to_string()));
        let (_age, set_age) = use_state(s, || Slot::Age(30i32));
        (set_name, set_age)
    });
    age_setter.set(&mut store, Slot::Age(31));
    let (name, age) = run_component(&mut store, id, |s: &mut HookStore<Slot>| {
        let (name, _) = use_state(s, || Slot::Name("alice".to_string()));
        let (age, _) = use_state(s, || Slot::Age(30i32));
        (name, age)
    });
    assert_eq!(name, Slot::Name("alice".to_string()));
    assert_eq!(age, Slot::Age(31));
    name_setter.set(&mut store, Slot::Name("bob".to_string()));
    drop_instance(&mut store, id);
}

#[test]
fn different_component_instances_have_independent_state() {
    let mut store: HookStore<i32> = HookStore::new();
    let id_a = 6;
    let id_b = 7;
    let setter_a = run_component(&mut store, id_a, |s: &mut HookStore<i32>| {
        let (_count, set) = use_state(s, || 100i32);
        set
    });
    setter_a.set(&mut store, 200);
    let value_b = run_component(&mut store, id_b, |s: &mut HookStore<i32>| {
        let (count, _set) = use_state(s, || 100i32);
        count
    });
    assert_eq!(value_b, 100, "instance b must not see instance a's update");
    drop_instance(&mut store, id_a);
    drop_instance(&mut store, id_b);
}

#[test]
fn a_render_answers_an_earlier_request() {
    let mut store: HookStore<i32> = HookStore::new();
    let id = 7;
    let setter = run_component(&mut store, id, |s: &mut HookStore<i32>| use_state(s, || 0i32).1);
    setter.set(&mut store, 4);
    let value = run_component(&mut store, id, |s: &mut HookStore<i32>| use_state(s, || 0i32).0);
    assert_eq!(value, 4);
    assert!(!take_dirty(&mut store, id), "the render consumed the request");
    setter.set(&mut store, 5);
    assert!(take_dirty(&mut store, id));
    drop_instance(&mut store, id);
}

#[test]
fn a_nested_component_leaves_the_outer_slots_in_order() {
    let mut store: HookStore<i32> = HookStore::new();
    let outer = 8;
    let inner = 9;
    let (a, b, c, set_c) = run_component(&mut store, outer, |s: &mut HookStore<i32>| {
        let (a, _) = use_state(s, || 10i32);
        let b = run_component(s, inner, |t: &mut HookStore<i32>| use_state(t, || 20i32).0);
        let (c, set_c) = use_state(s, || 30i32);
        (a, b, c, set_c)
    });
    assert_eq!((a, b, c), (10, 20, 30));
    set_c.set(&mut store, 33);
    let (a, b, c) = run_component(&mut store, outer, |s: &mut HookStore<i32>| {
        let (a, _) = use_state(s, || 0i32);
        let b = run_component(s, inner, |t: &mut HookStore<i32>| use_state(t, || 0i32).0);
        let (c, _) = use_state(s, || 0i32);
        (a, b, c)
    });
    assert_eq!((a, b, c), (10, 20, 33));
    drop_instance(&mut store, outer);
    drop_instance(&mut store, inner);
}
