use xcmp_queue::QueueConfigData;
use xcmp_queue::QueueError;
use xcmp_queue::QueueLimits;
use xcmp_queue::XcmpQueue;

fn fresh_engine() -> XcmpQueue {
    XcmpQueue::new(
        QueueConfigData::default(),
        QueueLimits {
            max_page_size: 1024,
            max_active_outbound_channels: 8,
            max_inbound_suspended: 8,
            min_fee_factor: 1_000_000_000_000_000_000,
        },
    )
}

#[test]
fn default_config_is_valid() {
    let config = QueueConfigData::default();
    assert_eq!(config.suspend_threshold, 32);
    assert_eq!(config.drop_threshold, 48);
    assert_eq!(config.resume_threshold, 8);
    assert!(config.validate().is_ok());
}

#[test]
fn config_invariant_violations_are_rejected() {
    let bad = QueueConfigData { suspend_threshold: 8, drop_threshold: 48, resume_threshold: 8 };
    assert_eq!(bad.validate(), Err(QueueError::BadQueueConfig));
    let bad = QueueConfigData { suspend_threshold: 32, drop_threshold: 16, resume_threshold: 8 };
    assert_eq!(bad.validate(), Err(QueueError::BadQueueConfig));
    let bad = QueueConfigData { suspend_threshold: 32, drop_threshold: 48, resume_threshold: 0 };
    assert_eq!(bad.validate(), Err(QueueError::BadQueueConfig));
}

#[test]
fn threshold_update_is_atomic_on_rejection() {
    let mut q = fresh_engine();
    // resume_threshold >= suspend_threshold must be rejected without a trace.
    assert_eq!(q.update_resume_threshold(32), Err(QueueError::BadQueueConfig));
    assert_eq!(q.config, QueueConfigData::default());
    assert_eq!(q.update_resume_threshold(40), Err(QueueError::BadQueueConfig));
    assert_eq!(q.config, QueueConfigData::default());
    // A valid update lands.
    assert_eq!(q.update_resume_threshold(16), Ok(()));
    assert_eq!(q.config.resume_threshold, 16);
    assert_eq!(q.update_suspend_threshold(40), Ok(()));
    assert_eq!(q.config.suspend_threshold, 40);
    assert_eq!(q.update_drop_threshold(39), Err(QueueError::BadQueueConfig));
    assert_eq!(q.config.drop_threshold, 48);
    assert_eq!(q.update_drop_threshold(64), Ok(()));
    assert_eq!(q.config.drop_threshold, 64);
}

#[test]
fn execution_toggle_reports_double_switches() {
    let mut q = fresh_engine();
    assert!(!q.is_paused(false));
    assert_eq!(q.suspend_xcm_execution(), Ok(()));
    assert_eq!(q.suspend_xcm_execution(), Err(QueueError::AlreadySuspended));
    assert!(q.is_paused(false));
    // The controlling origin bypasses the pause.
    assert!(!q.is_paused(true));
    assert_eq!(q.resume_xcm_execution(), Ok(()));
    assert_eq!(q.resume_xcm_execution(), Err(QueueError::AlreadyResumed));
    assert!(!q.is_paused(false));
}
