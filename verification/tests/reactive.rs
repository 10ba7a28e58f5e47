use reactive_core::engine::dispose;
use reactive_core::engine::with_reactive_context;
use reactive_core::engine::EffectHandle;
use reactive_core::engine::Runtime;
use reactive_core::engine::RuntimeError;
use reactive_core::ops::Op;
use reactive_core::ops::Signal;

fn then(a: Op, b: Op) -> Op {
    Op::Then(Box::new(a), Box::new(b))
}

fn branch(s: Signal, a: Op, b: Op) -> Op {
    Op::Branch(s, Box::new(a), Box::new(b))
}

fn child(a: Op) -> Op {
    Op::Child(Box::new(a))
}

fn entry(rt: &Runtime, i: usize) -> (usize, usize, u64) {
    let e = rt.log_get(i);
    (e.comp, e.cell, e.value)
}

#[test]
fn get_returns_value_and_set_updates_it() {
    let mut rt = Runtime::new();
    let s = Signal::new(&mut rt, 3);
    assert_eq!(s.get(&mut rt), 3);
    assert!(s.set(&mut rt, 10).is_ok());
    assert_eq!(s.get(&mut rt), 10);
}

#[test]
fn bare_reads_never_subscribe() {
    let mut rt = Runtime::new();
    let s = Signal::new(&mut rt, 7);
    let (e, r) = with_reactive_context(&mut rt, Op::Skip);
    assert!(r.is_ok());
    let v = s.get(&mut rt);
    assert_eq!(v, 7);
    assert!(!rt.is_subscribed(s, e));
    assert_eq!(rt.log_len(), 0);
}

#[test]
fn two_effects_rerun_once_each_in_creation_order() {
    let mut rt = Runtime::new();
    let count = Signal::new(&mut rt, 0);
    let (e1, r1) = with_reactive_context(&mut rt, Op::Read(count));
    let (e2, r2) = with_reactive_context(&mut rt, Op::Read(count));
    assert!(r1.is_ok());
    assert!(r2.is_ok());
    assert_eq!(rt.log_len(), 2);
    assert_eq!(entry(&rt, 0), (e1.id, count.id, 0));
    assert_eq!(entry(&rt, 1), (e2.id, count.id, 0));
    assert!(count.set(&mut rt, 1).is_ok());
    assert_eq!(rt.log_len(), 4);
    assert_eq!(entry(&rt, 2), (e1.id, count.id, 1));
    assert_eq!(entry(&rt, 3), (e2.id, count.id, 1));
}

#[test]
fn disposed_effect_never_reruns_and_is_unsubscribed() {
    let mut rt = Runtime::new();
    let s = Signal::new(&mut rt, 0);
    let (e, r) = with_reactive_context(&mut rt, Op::Read(s));
    assert!(r.is_ok());
    assert!(rt.is_subscribed(s, e));
    dispose(&mut rt, e);
    assert!(rt.is_disposed(e));
    assert!(!rt.is_subscribed(s, e));
    let len = rt.log_len();
    assert!(s.set(&mut rt, 5).is_ok());
    assert_eq!(rt.log_len(), len);
}

#[test]
fn stale_subscription_is_dropped_when_dependency_becomes_conditional() {
    let mut rt = Runtime::new();
    let flag = Signal::new(&mut rt, 1);
    let b = Signal::new(&mut rt, 0);
    let (e, r) = with_reactive_context(&mut rt, branch(flag, Op::Read(b), Op::Skip));
    assert!(r.is_ok());
    assert!(rt.is_subscribed(flag, e));
    assert!(rt.is_subscribed(b, e));
    // Flip the flag off: the re-run reads only the flag.
    assert!(flag.set(&mut rt, 0).is_ok());
    assert!(rt.is_subscribed(flag, e));
    assert!(!rt.is_subscribed(b, e));
    // Writing the no-longer-read cell must not re-run the effect.
    let len = rt.log_len();
    assert!(b.set(&mut rt, 99).is_ok());
    assert_eq!(rt.log_len(), len);
}

#[test]
fn diamond_dependency_reruns_the_join_exactly_once() {
    let mut rt = Runtime::new();
    let c = Signal::new(&mut rt, 0);
    let a2 = Signal::new(&mut rt, 0);
    let b2 = Signal::new(&mut rt, 0);
    let (_ea, ra) = with_reactive_context(&mut rt, then(Op::Read(c), Op::Write(a2, 1)));
    let (_eb, rb) = with_reactive_context(&mut rt, then(Op::Read(c), Op::Write(b2, 1)));
    let (ed, rd) = with_reactive_context(&mut rt, then(Op::Read(a2), Op::Read(b2)));
    assert!(ra.is_ok());
    assert!(rb.is_ok());
    assert!(rd.is_ok());
    let base = rt.log_len();
    assert!(c.set(&mut rt, 5).is_ok());
    // Both branches re-ran and wrote, yet the join re-ran exactly once:
    // exactly two of the new log entries belong to it.
    let mut join_reads = 0;
    let mut i = base;
    while i < rt.log_len() {
        if rt.log_get(i).comp == ed.id {
            join_reads += 1;
        }
        i += 1;
    }
    assert_eq!(join_reads, 2);
    assert_eq!(rt.log_len(), base + 4);
}

#[test]
fn rerun_disposes_previous_child_and_a_fresh_child_takes_over() {
    let mut rt = Runtime::new();
    let t = Signal::new(&mut rt, 0);
    let x = Signal::new(&mut rt, 0);
    let (e1, r) = with_reactive_context(&mut rt, then(Op::Read(t), child(Op::Read(x))));
    assert!(r.is_ok());
    let c1 = EffectHandle { id: e1.id + 1 };
    assert!(!rt.is_disposed(c1));
    assert!(rt.is_subscribed(x, c1));
    // Re-running the parent discards the old child and creates a new one.
    assert!(t.set(&mut rt, 1).is_ok());
    assert!(rt.is_disposed(c1));
    assert!(!rt.is_subscribed(x, c1));
    let c2 = EffectHandle { id: e1.id + 2 };
    assert!(!rt.is_disposed(c2));
    assert!(rt.is_subscribed(x, c2));
    // Writing x re-runs only the current child.
    let len = rt.log_len();
    assert!(x.set(&mut rt, 7).is_ok());
    assert_eq!(rt.log_len(), len + 1);
    assert_eq!(entry(&rt, len), (c2.id, x.id, 7));
}

#[test]
fn reentrant_write_settles_before_the_outer_set_returns() {
    let mut rt = Runtime::new();
    let t = Signal::new(&mut rt, 0);
    let y = Signal::new(&mut rt, 0);
    let (_ea, ra) = with_reactive_context(&mut rt, then(Op::Read(t), Op::Write(y, 7)));
    let (eb, rb) = with_reactive_context(&mut rt, Op::Read(y));
    assert!(ra.is_ok());
    assert!(rb.is_ok());
    let len = rt.log_len();
    assert!(t.set(&mut rt, 1).is_ok());
    // The dependent of y has already re-run with y's settled value.
    assert_eq!(rt.log_len(), len + 2);
    assert_eq!(entry(&rt, len + 1), (eb.id, y.id, 7));
    assert_eq!(y.get(&mut rt), 7);
}

#[test]
fn non_converging_round_is_cut_off_and_reported() {
    let mut rt = Runtime::new();
    let x = Signal::new(&mut rt, 0);
    let (_e, r) = with_reactive_context(&mut rt, then(Op::Read(x), Op::Write(x, 1)));
    assert!(matches!(r, Err(RuntimeError::ReentrancyOverflow)));
}

#[test]
fn failing_effect_reports_but_does_not_skip_siblings() {
    let mut rt = Runtime::new();
    let x = Signal::new(&mut rt, 0);
    let (ea, ra) = with_reactive_context(&mut rt, then(Op::Read(x), Op::Fail));
    assert!(matches!(ra, Err(RuntimeError::ComputationFailure)));
    // The failed effect still subscribed to what it read before failing.
    assert!(rt.is_subscribed(x, ea));
    let (eb, rb) = with_reactive_context(&mut rt, Op::Read(x));
    assert!(rb.is_ok());
    let len = rt.log_len();
    let r = x.set(&mut rt, 1);
    assert!(matches!(r, Err(RuntimeError::ComputationFailure)));
    // Both the failing effect and its sibling ran once.
    assert_eq!(rt.log_len(), len + 2);
    assert_eq!(entry(&rt, len), (ea.id, x.id, 1));
    assert_eq!(entry(&rt, len + 1), (eb.id, x.id, 1));
}

#[test]
fn track_subscribes_until_the_next_run_replaces_the_dependency_set() {
    let mut rt = Runtime::new();
    let s = Signal::new(&mut rt, 0);
    let (e, r) = with_reactive_context(&mut rt, Op::Skip);
    assert!(r.is_ok());
    assert!(!rt.is_subscribed(s, e));
    s.track(&mut rt, e);
    assert!(rt.is_subscribed(s, e));
    // The re-run reads nothing, so the manual subscription is replaced by
    // the (empty) set of cells actually read.
    assert!(s.set(&mut rt, 1).is_ok());
    assert!(!rt.is_subscribed(s, e));
}

#[test]
fn track_on_a_disposed_effect_is_a_no_op() {
    let mut rt = Runtime::new();
    let s = Signal::new(&mut rt, 0);
    let (e, r) = with_reactive_context(&mut rt, Op::Skip);
    assert!(r.is_ok());
    dispose(&mut rt, e);
    s.track(&mut rt, e);
    assert!(!rt.is_subscribed(s, e));
    assert_eq!(rt.log_len(), 0);
}

#[test]
fn write_without_subscribers_only_stores_the_value() {
    let mut rt = Runtime::new();
    let s = Signal::new(&mut rt, 1);
    let other = Signal::new(&mut rt, 2);
    let (_e, r) = with_reactive_context(&mut rt, Op::Read(other));
    assert!(r.is_ok());
    let len = rt.log_len();
    assert!(s.set(&mut rt, 42).is_ok());
    assert_eq!(s.get(&mut rt), 42);
    assert_eq!(rt.log_len(), len);
}
