use geyser_plugin_cos::config::GeyserPluginCosConfig;
use geyser_plugin_cos::event::{Event, EventReceiver};
use geyser_plugin_cos::wal::{frame_event, parse_events, replay_events, LogManager};

fn config(max_mb: u64) -> GeyserPluginCosConfig {
    GeyserPluginCosConfig {
        workspace: String::from("ws"),
        slot_range: 1000,
        commit_slot_delay: 100,
        max_file_size_mb: max_mb,
    }
}

#[test]
fn frame_is_length_then_payload() {
    let e = Event::new(vec![1, 2, 3]);
    let f = frame_event(&e);
    assert_eq!(f, vec![3u8, 0, 0, 0, 0, 0, 0, 0, 1, 2, 3]);
}

#[test]
fn parse_recovers_consecutive_frames() {
    let mut buf = frame_event(&Event::new(vec![10, 11, 12]));
    buf.extend_from_slice(&frame_event(&Event::new(vec![20, 21, 22, 23])));
    let events = parse_events(&buf);
    assert_eq!(events.len(), 2);
    assert_eq!(events[0].data, vec![10, 11, 12]);
    assert_eq!(events[1].data, vec![20, 21, 22, 23]);
}

#[test]
fn parse_survives_truncation_mid_record() {
    let mut buf = frame_event(&Event::new(vec![10, 11, 12]));
    buf.extend_from_slice(&frame_event(&Event::new(vec![20, 21, 22, 23])));
    // Torn inside the second record's header: only the first survives.
    let torn_header = buf[0..15].to_vec();
    let events = parse_events(&torn_header);
    assert_eq!(events.len(), 1);
    assert_eq!(events[0].data, vec![10, 11, 12]);
    // Torn inside the second record's payload: still only the first.
    let torn_payload = buf[0..21].to_vec();
    let events = parse_events(&torn_payload);
    assert_eq!(events.len(), 1);
    // Torn inside the first record's header: nothing, and no crash.
    let torn_first = buf[0..4].to_vec();
    assert_eq!(parse_events(&torn_first).len(), 0);
}

#[test]
fn parse_of_empty_buffer_is_empty() {
    assert_eq!(parse_events(&Vec::new()).len(), 0);
}

struct Collector {
    got: Vec<Vec<u8>>,
}

impl EventReceiver for Collector {
    fn receive(&mut self, event: Event) -> Result<(), ()> {
        self.got.push(event.data);
        Ok(())
    }
}

#[test]
fn replay_dispatches_in_order() {
    let mut buf = frame_event(&Event::new(vec![1]));
    buf.extend_from_slice(&frame_event(&Event::new(vec![2, 2])));
    buf.push(7); // torn tail
    let mut rx = Collector { got: Vec::new() };
    let n = replay_events(&mut rx, &buf).unwrap();
    assert_eq!(n, 2);
    assert_eq!(rx.got, vec![vec![1], vec![2, 2]]);
}

#[test]
fn append_accounts_and_rotates() {
    let cfg = config(1);
    let mut lm = LogManager::new(&cfg, 0, 0);
    let plan = lm.append_event(&Event::new(vec![0; 100]));
    assert!(plan.rotate_to.is_none());
    assert_eq!(plan.bytes.len(), 108);

    // A log picked up at the rotation threshold rotates before writing.
    let mut lm = LogManager::new(&cfg, 3, 1024 * 1024);
    let plan = lm.append_event(&Event::new(vec![9; 8]));
    assert_eq!(plan.rotate_to, Some(4));
    assert_eq!(plan.bytes, frame_event(&Event::new(vec![9; 8])));

    // The fresh file holds only that frame, so the next append stays.
    let plan = lm.append_event(&Event::new(vec![7]));
    assert!(plan.rotate_to.is_none());
}
