use msg_dispatch::communication_msgs::LocalizationMsg;
use msg_dispatch::data_storage::{
    CommunicationHandler, DecodeError, DispatchReport, FixedPoseAdapter, InputMsgType,
    LocMsgPublisher, MqttAdapter, MsgWithMeta, ProtocolType, StorageSubscriber,
};
use msg_dispatch::geometry::{Angle, AngleWrapping, Pose};

/// One radian, in binary angle units (a full turn is 1 << 32 units).
const RAD: i64 = 683565276;

fn fixed_pose() -> Pose {
    Pose { x: 2_000_000, y: 5_000_000, theta: Angle::new(RAD, AngleWrapping::PlusMinusPi) }
}

fn envelope(msg_type: InputMsgType, payload: &str) -> MsgWithMeta {
    MsgWithMeta { protocol: ProtocolType::MQTT, msg_type, payload: payload.as_bytes().to_vec() }
}

#[test]
fn test_communication_handler() {
    let fake_adapter = FixedPoseAdapter { pose: fixed_pose() };
    let mut loc_msg_pub = LocMsgPublisher::new(fake_adapter);
    loc_msg_pub.register(StorageSubscriber::new());

    let mut communication_handler = CommunicationHandler::new(vec![loc_msg_pub]);

    communication_handler.send_new_msg(envelope(InputMsgType::Localization, "Hello"));
}

#[test]
fn delivered_pose_reaches_storage() {
    let mut publisher = LocMsgPublisher::new(FixedPoseAdapter { pose: fixed_pose() });
    publisher.register(StorageSubscriber::new());
    let mut hub = CommunicationHandler::new(vec![publisher]);

    hub.send_new_msg(envelope(InputMsgType::Localization, "Hello"));
    let reports = hub.drain();

    assert_eq!(reports, vec![DispatchReport::Delivered]);
    let subscriber = &hub.publishers[0].subscriber_registry.subscribers[0];
    let latest = subscriber.latest().expect("a pose should have been cached");
    assert_eq!(latest.pose.x, 2_000_000);
    assert_eq!(latest.pose.y, 5_000_000);
    assert_eq!(latest.pose.theta.value(), RAD);
}

#[test]
fn routing_failure_is_reported_and_hub_keeps_running() {
    let mut publisher = LocMsgPublisher::new(FixedPoseAdapter { pose: fixed_pose() });
    publisher.register(StorageSubscriber::new());
    let mut hub = CommunicationHandler::new(vec![publisher]);

    hub.send_new_msg(envelope(InputMsgType::Imu, "Hello"));
    let reports = hub.drain();
    assert_eq!(reports, vec![DispatchReport::NoPublisher(InputMsgType::Imu)]);
    assert!(hub.running);

    hub.send_new_msg(envelope(InputMsgType::Localization, "Hello"));
    let reports = hub.drain();
    assert_eq!(reports, vec![DispatchReport::Delivered]);
    let subscriber = &hub.publishers[0].subscriber_registry.subscribers[0];
    assert!(subscriber.latest().is_some());
}

#[test]
fn no_publisher_at_all_reports_every_envelope() {
    let mut hub = CommunicationHandler::<
        LocMsgPublisher<FixedPoseAdapter, StorageSubscriber<LocalizationMsg>>,
    >::new(vec![]);
    hub.send_new_msg(envelope(InputMsgType::Localization, "a"));
    hub.send_new_msg(envelope(InputMsgType::Localization, "b"));
    let reports = hub.drain();
    assert_eq!(
        reports,
        vec![
            DispatchReport::NoPublisher(InputMsgType::Localization),
            DispatchReport::NoPublisher(InputMsgType::Localization),
        ]
    );
    assert!(hub.running);
}

#[test]
fn envelopes_are_observed_in_send_order() {
    let mut publisher = LocMsgPublisher::new(MqttAdapter {});
    publisher.register(StorageSubscriber::new());
    let mut hub = CommunicationHandler::new(vec![publisher]);

    hub.send_new_msg(envelope(InputMsgType::Localization, "1;2;3"));
    hub.send_new_msg(envelope(InputMsgType::Localization, "4;5;6"));
    let reports = hub.drain();

    assert_eq!(reports, vec![DispatchReport::Delivered, DispatchReport::Delivered]);
    let subscriber = &hub.publishers[0].subscriber_registry.subscribers[0];
    let latest = subscriber.latest().expect("two poses should have been cached");
    assert_eq!((latest.pose.x, latest.pose.y, latest.pose.theta.value()), (4, 5, 6));
}

#[test]
fn decode_failure_is_reported_and_nothing_is_delivered() {
    let mut publisher = LocMsgPublisher::new(MqttAdapter {});
    publisher.register(StorageSubscriber::new());
    let mut hub = CommunicationHandler::new(vec![publisher]);

    hub.send_new_msg(envelope(InputMsgType::Localization, "Hello"));
    let reports = hub.drain();

    assert_eq!(reports, vec![DispatchReport::DecodeFailed(DecodeError::Malformed)]);
    let subscriber = &hub.publishers[0].subscriber_registry.subscribers[0];
    assert!(subscriber.latest().is_none());
}

#[test]
fn later_publisher_replaces_earlier_for_same_type() {
    let first = LocMsgPublisher::<FixedPoseAdapter, StorageSubscriber<LocalizationMsg>>::new(
        FixedPoseAdapter { pose: Pose { x: 1, y: 1, theta: Angle::new(0, AngleWrapping::TwoPi) } },
    );
    let mut second = LocMsgPublisher::new(FixedPoseAdapter {
        pose: Pose { x: 9, y: 9, theta: Angle::new(0, AngleWrapping::TwoPi) },
    });
    second.register(StorageSubscriber::new());
    let mut hub = CommunicationHandler::new(vec![first, second]);
    assert_eq!(hub.publishers.len(), 1);

    hub.send_new_msg(envelope(InputMsgType::Localization, "x"));
    let reports = hub.drain();
    assert_eq!(reports, vec![DispatchReport::Delivered]);
    let latest = hub.publishers[0].subscriber_registry.subscribers[0]
        .latest()
        .expect("the kept publisher should have delivered");
    assert_eq!((latest.pose.x, latest.pose.y), (9, 9));
}

#[test]
fn mixed_outcomes_are_reported_in_queue_order() {
    let mut publisher = LocMsgPublisher::new(MqttAdapter {});
    publisher.register(StorageSubscriber::new());
    let mut hub = CommunicationHandler::new(vec![publisher]);

    hub.send_new_msg(envelope(InputMsgType::Localization, "1;2;3"));
    hub.send_new_msg(envelope(InputMsgType::Imu, "whatever"));
    hub.send_new_msg(envelope(InputMsgType::Localization, "not a pose"));
    hub.send_new_msg(envelope(InputMsgType::Localization, "7;8;9"));
    let reports = hub.drain();

    assert_eq!(
        reports,
        vec![
            DispatchReport::Delivered,
            DispatchReport::NoPublisher(InputMsgType::Imu),
            DispatchReport::DecodeFailed(DecodeError::Malformed),
            DispatchReport::Delivered,
        ]
    );
    assert!(hub.running);
    let latest = hub.publishers[0].subscriber_registry.subscribers[0]
        .latest()
        .expect("two poses were delivered");
    assert_eq!((latest.pose.x, latest.pose.y, latest.pose.theta.value()), (7, 8, 9));
}

#[test]
fn notify_with_no_subscribers_is_harmless() {
    let publisher: LocMsgPublisher<FixedPoseAdapter, StorageSubscriber<LocalizationMsg>> =
        LocMsgPublisher::new(FixedPoseAdapter { pose: fixed_pose() });
    let mut hub = CommunicationHandler::new(vec![publisher]);
    hub.send_new_msg(envelope(InputMsgType::Localization, "hi"));
    let reports = hub.drain();
    assert_eq!(reports, vec![DispatchReport::Delivered]);
}

#[test]
fn stop_drains_and_leaves_running_state() {
    let mut publisher = LocMsgPublisher::new(FixedPoseAdapter { pose: fixed_pose() });
    publisher.register(StorageSubscriber::new());
    let mut hub = CommunicationHandler::new(vec![publisher]);
    hub.send_new_msg(envelope(InputMsgType::Localization, "bye"));
    let reports = hub.stop();
    assert_eq!(reports, vec![DispatchReport::Delivered]);
    assert!(!hub.running);
}

#[test]
fn every_subscriber_is_notified_in_registration_order() {
    let mut publisher = LocMsgPublisher::new(FixedPoseAdapter { pose: fixed_pose() });
    publisher.register(StorageSubscriber::new());
    publisher.register(StorageSubscriber::new());
    let mut hub = CommunicationHandler::new(vec![publisher]);
    hub.send_new_msg(envelope(InputMsgType::Localization, "hi"));
    hub.drain();
    let registry = &hub.publishers[0].subscriber_registry;
    assert_eq!(registry.subscribers.len(), 2);
    for subscriber in registry.subscribers.iter() {
        let latest = subscriber.latest().expect("each subscriber gets the message");
        assert_eq!(latest.pose.x, 2_000_000);
    }
}
