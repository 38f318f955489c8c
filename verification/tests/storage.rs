use retained::private::Ptr;
use retained::storage::OnceSlot;

struct S {
    counter: OnceSlot<(i32, ())>,
}

fn count(record: &mut S) -> i32 {
    let (counter, _) = record.counter.step(|| 0);
    *counter += 1;
    *counter
}

#[test]
fn counter_counts_across_calls() {
    let mut record = S { counter: OnceSlot::new() };
    assert_eq!(count(&mut record), 1);
    assert_eq!(count(&mut record), 2);
    assert_eq!(count(&mut record), 3);
}

#[test]
fn records_count_apart() {
    let mut a = S { counter: OnceSlot::new() };
    let mut b = S { counter: OnceSlot::default() };
    assert_eq!(count(&mut a), 1);
    assert_eq!(count(&mut a), 2);
    assert_eq!(count(&mut b), 1);
    assert_eq!(count(&mut a), 3);
}

#[test]
fn initializer_runs_once() {
    let mut slot: OnceSlot<String> = OnceSlot::new();
    assert!(!slot.is_populated());
    assert!(slot.get().is_none());
    let mut evaluations = 0;
    for call in 0..5 {
        let value = slot.get_or_init(|| {
            evaluations += 1;
            format!("made in call {call}")
        });
        assert_eq!(value, "made in call 0");
    }
    assert_eq!(evaluations, 1);
    assert!(slot.is_populated());
    assert_eq!(slot.get().unwrap(), "made in call 0");
}

#[test]
fn bound_value_is_the_slot_itself() {
    let mut slot: OnceSlot<Vec<u8>> = OnceSlot::new();
    slot.get_or_init(Vec::new).push(1);
    slot.get_or_init(|| vec![9, 9]).push(2);
    assert_eq!(slot.get().unwrap(), &vec![1, 2]);
    assert_eq!(slot.value, Some(vec![1, 2]));
}

struct Branching {
    outside: OnceSlot<(u32, ())>,
    inside: OnceSlot<(u32, ())>,
}

fn branching(record: &mut Branching, call: u32, taken: bool) -> (u32, Option<u32>) {
    let (outside, _) = record.outside.step(|| call);
    let outside = *outside;
    let inside = if taken {
        let (inside, _) = record.inside.step(|| call);
        Some(*inside)
    } else {
        None
    };
    (outside, inside)
}

#[test]
fn branch_initializes_when_first_taken() {
    let mut record = Branching { outside: OnceSlot::new(), inside: OnceSlot::new() };
    for call in 1..=4 {
        assert_eq!(branching(&mut record, call, false), (1, None));
        assert!(!record.inside.is_populated());
        assert!(record.outside.is_populated());
    }
    assert_eq!(branching(&mut record, 5, true), (1, Some(5)));
    assert_eq!(branching(&mut record, 6, true), (1, Some(5)));
    assert_eq!(branching(&mut record, 7, false), (1, None));
    assert_eq!(branching(&mut record, 8, true), (1, Some(5)));
}

#[test]
fn branch_taken_at_once_initializes_both() {
    let mut record = Branching { outside: OnceSlot::new(), inside: OnceSlot::new() };
    assert_eq!(branching(&mut record, 1, true), (1, Some(1)));
}

struct Inner {
    text: OnceSlot<(String, ())>,
}

struct Outer {
    chain: OnceSlot<(u32, OnceSlot<(Inner, ())>)>,
}

fn inner(text: &str, record: &mut Inner) -> String {
    let (kept, _) = record.text.step(|| text.to_string());
    kept.clone()
}

fn outer(input: u32, text: &str, record: &mut Outer) -> (u32, String) {
    let (a, rest) = record.chain.step(|| input);
    let (nested, _) = rest.step(|| Inner { text: OnceSlot::new() });
    (*a, inner(text, nested))
}

#[test]
fn inner_record_persists_across_outer_calls() {
    let mut record = Outer { chain: OnceSlot::new() };
    assert_eq!(outer(123, "Hello world", &mut record), (123, "Hello world".to_string()));
    assert_eq!(outer(456, "", &mut record), (123, "Hello world".to_string()));
    assert_eq!(outer(789, "world", &mut record), (123, "Hello world".to_string()));
}

#[test]
fn chain_links_fill_in_order() {
    let mut chain: OnceSlot<(u8, OnceSlot<(char, ())>)> = OnceSlot::new();
    {
        let (first, rest) = chain.step(|| 7);
        assert_eq!(*first, 7);
        assert!(!rest.is_populated());
    }
    {
        let (first, rest) = chain.step(|| 8);
        assert_eq!(*first, 7);
        let (second, _) = rest.step(|| 'x');
        assert_eq!(*second, 'x');
        *second = 'y';
    }
    let (first, rest) = chain.step(|| 9);
    assert_eq!(*first, 7);
    assert_eq!(rest.get(), Some(&('y', ())));
}

#[test]
fn borrow_goes_through_and_back() {
    let mut slot = 3;
    {
        let ptr = Ptr::new(&mut slot);
        assert_eq!(*ptr.target, 3);
        let target = ptr.as_mut();
        *target += 1;
    }
    assert_eq!(slot, 4);
}

#[test]
fn call_on_one_record_leaves_the_other() {
    let mut a = S { counter: OnceSlot::new() };
    let mut b = S { counter: OnceSlot::new() };
    assert_eq!(count(&mut a), 1);
    assert!(!b.counter.is_populated());
    assert_eq!(count(&mut b), 1);
    assert_eq!(count(&mut b), 2);
    assert_eq!(a.counter.get(), Some(&(1, ())));
    assert_eq!(count(&mut a), 2);
    assert_eq!(b.counter.get(), Some(&(2, ())));
}
