use sqlsync::local::{NoopSignal, Signal};

struct CountingSignal(u32);

impl Signal for CountingSignal {
    fn emit(&mut self) {
        self.0 += 1;
    }
}

fn emit_twice(s: &mut impl Signal) {
    s.emit();
    s.emit();
}

#[test]
fn noop_signal_does_nothing() {
    let mut s = NoopSignal;
    emit_twice(&mut s);
    // a noop signal carries no state that an emit could change
    assert_eq!(std::mem::size_of::<NoopSignal>(), 0);
}

#[test]
fn signal_emits_once_per_call() {
    let mut s = CountingSignal(0);
    emit_twice(&mut s);
    assert_eq!(s.0, 2);
}
