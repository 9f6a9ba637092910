use shadow::event::{ErasedEvent, EventOutputs, Events};

#[test]
fn remove_takes_one_kind_out_in_order() {
    let mut events: Events<&'static str> = Events::new();
    let _outputs: EventOutputs<u32> = events.register(1, 5);
    events.add(ErasedEvent::new(1, "a"));
    events.add(ErasedEvent::new(2, "b"));
    events.add(ErasedEvent::new(1, "c"));
    let taken = events.remove(1);
    let taken: Vec<&str> = taken.into_iter().map(|e| e.take()).collect();
    assert_eq!(taken, vec!["a", "c"]);
    assert_eq!(events.len(), 1);
    let rest = events.drain();
    assert_eq!(*rest[0].ty(), 2);
    assert_eq!(*rest[0].data(), "b");
    assert!(events.is_empty());
}

#[test]
fn registered_kind_keeps_its_priority() {
    let mut events: Events<u8> = Events::new();
    let _outputs: EventOutputs<u8> = events.register(7, -3);
    assert_eq!(events.meta(7).priority(), -3);
    assert_eq!(events.meta_dynamic(&7).priority(), -3);
}

#[test]
fn cast_reads_only_the_right_kind() {
    let mut event = ErasedEvent::new(4, 40u32);
    assert_eq!(event.cast(4), Some(&40));
    assert_eq!(event.cast(5), None);
    *event.cast_mut(4).unwrap() = 41;
    assert_eq!(event.take(), 41);
}

#[test]
fn outputs_drain_in_order() {
    let mut outputs: EventOutputs<u32> = EventOutputs::new();
    outputs.add(1);
    outputs.extend(vec![2, 3]);
    assert_eq!(outputs.slice(), &[1, 2, 3]);
    assert_eq!(outputs.len(), 3);
    let mut other: EventOutputs<u32> = EventOutputs::new();
    other.add(9);
    outputs.swap(&mut other);
    assert_eq!(outputs.slice(), &[9]);
    assert_eq!(other.drain(), vec![1, 2, 3]);
    assert_eq!(other.len(), 0);
}
