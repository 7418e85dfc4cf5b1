use std::sync::atomic::Ordering;

use codecompass::tasks::ScanManager;

#[test]
fn register_and_cancel() {
    let mut manager = ScanManager::new();
    let token = manager.register(1);
    assert!(!token.load(Ordering::Relaxed));
    assert!(manager.cancel(1));
    assert!(token.load(Ordering::Relaxed));
}

#[test]
fn cancel_unknown_run_returns_false() {
    let manager = ScanManager::new();
    assert!(!manager.cancel(99));
}

#[test]
fn removed_runs_are_no_longer_cancellable() {
    let mut manager = ScanManager::new();
    let token = manager.register(5);
    manager.remove(5);
    assert!(!manager.cancel(5));
    assert!(!token.load(Ordering::Relaxed));
}
