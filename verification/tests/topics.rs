use c0mpute::topics::{job_topic, CAPABILITY_TOPIC, HEARTBEAT_TOPIC};

#[test]
fn job_topic_is_namespaced_by_workload() {
    assert_eq!(job_topic("ffmpeg.transcode"), "c0mpute/jobs/ffmpeg.transcode");
    assert_eq!(job_topic("infernet.inference"), "c0mpute/jobs/infernet.inference");
    assert_eq!(job_topic(""), "c0mpute/jobs/");
}

#[test]
fn fixed_topics() {
    assert_eq!(CAPABILITY_TOPIC, "c0mpute/cap/v1");
    assert_eq!(HEARTBEAT_TOPIC, "c0mpute/heartbeat/v1");
}
