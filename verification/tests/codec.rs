use vela_sim::codec::{
    decode_cluster_command, encode_cluster_command, try_decode_cluster_command,
};
use vela_sim::model::{
    ClusterCommand, LogBackend, NodeAvailability, NodeId, Partition, PartitionIndex,
};

fn partition(index: u32, replicas: &[&str], leader: Option<&str>) -> Partition {
    Partition {
        index: PartitionIndex(index),
        replicas: replicas.iter().map(|r| NodeId::new(r)).collect(),
        leader: leader.map(NodeId::new),
    }
}

fn assert_round_trips(command: &ClusterCommand) {
    let bytes = encode_cluster_command(command);
    assert_eq!(&decode_cluster_command(&bytes), command);
}

#[test]
fn create_topic_round_trips_with_partitions_and_backend() {
    assert_round_trips(&ClusterCommand::CreateTopic {
        name: "orders".to_string(),
        partitions: vec![
            partition(0, &["node-0", "node-1"], Some("node-0")),
            partition(1, &["node-1", "node-2"], None),
        ],
        backend: LogBackend::Durable,
    });
    assert_round_trips(&ClusterCommand::CreateTopic {
        name: "events".to_string(),
        partitions: vec![partition(0, &["node-0"], Some("node-0"))],
        backend: LogBackend::InMemory,
    });
}

#[test]
fn create_topic_with_no_partitions_round_trips() {
    assert_round_trips(&ClusterCommand::CreateTopic {
        name: "empty".to_string(),
        partitions: Vec::new(),
        backend: LogBackend::Durable,
    });
}

#[test]
fn delete_topic_round_trips() {
    assert_round_trips(&ClusterCommand::DeleteTopic { name: "orders".to_string() });
}

#[test]
fn set_availability_round_trips_both_states() {
    assert_round_trips(&ClusterCommand::SetAvailability {
        node: NodeId::new("node-0"),
        availability: NodeAvailability::Available,
    });
    assert_round_trips(&ClusterCommand::SetAvailability {
        node: NodeId::new("node-1"),
        availability: NodeAvailability::Unavailable,
    });
}

#[test]
fn encoding_is_deterministic_for_equal_commands() {
    let command = ClusterCommand::CreateTopic {
        name: "orders".to_string(),
        partitions: vec![partition(2, &["node-2", "node-0"], Some("node-2"))],
        backend: LogBackend::Durable,
    };
    assert_eq!(encode_cluster_command(&command), encode_cluster_command(&command));
}

#[test]
fn names_beyond_ascii_round_trip() {
    assert_round_trips(&ClusterCommand::DeleteTopic { name: "été-日本".to_string() });
}

#[test]
fn byte_form_is_tag_length_and_text() {
    let bytes = encode_cluster_command(&ClusterCommand::DeleteTopic { name: "ab".to_string() });
    assert_eq!(bytes, vec![1, 2, 0, 0, 0, b'a', b'b']);
    let bytes = encode_cluster_command(&ClusterCommand::SetAvailability {
        node: NodeId::new("n"),
        availability: NodeAvailability::Unavailable,
    });
    assert_eq!(bytes[..6], [2, 1, 0, 0, 0, b'n']);
    assert_eq!(bytes.len(), 7);
}

#[test]
fn unreadable_bytes_are_refused() {
    assert!(try_decode_cluster_command(&[]).is_none());
    assert!(try_decode_cluster_command(&[9]).is_none());
    assert!(try_decode_cluster_command(&[1, 5, 0, 0, 0, b'a']).is_none());
    assert!(try_decode_cluster_command(&[1, 1, 0, 0, 0, 0xFF]).is_none());
    assert!(try_decode_cluster_command(&[2, 1, 0, 0, 0, b'a', 7]).is_none());
    assert!(try_decode_cluster_command(&[2, 0, 0, 0, 0, 7, 9]).is_none());
    assert!(try_decode_cluster_command(&[1, 1, 0, 0, 0, b'a', 0]).is_none());
    assert!(try_decode_cluster_command(&[0, 0, 0, 0, 0, 0, 0, 0, 0, 2]).is_none());
    assert_eq!(
        try_decode_cluster_command(&[1, 1, 0, 0, 0, b'a']),
        Some(ClusterCommand::DeleteTopic { name: "a".to_string() })
    );
}

#[test]
fn different_commands_have_different_bytes() {
    let commands = [
        ClusterCommand::DeleteTopic { name: "a".to_string() },
        ClusterCommand::DeleteTopic { name: "b".to_string() },
        ClusterCommand::CreateTopic {
            name: "a".to_string(),
            partitions: vec![partition(0, &["x", "y"], None)],
            backend: LogBackend::Durable,
        },
        ClusterCommand::CreateTopic {
            name: "a".to_string(),
            partitions: vec![partition(0, &["xy"], None)],
            backend: LogBackend::Durable,
        },
    ];
    for i in 0..commands.len() {
        for j in 0..i {
            assert_ne!(encode_cluster_command(&commands[i]), encode_cluster_command(&commands[j]));
        }
    }
}

#[test]
fn a_byte_form_cut_short_is_refused() {
    let bytes = encode_cluster_command(&ClusterCommand::CreateTopic {
        name: "orders".to_string(),
        partitions: vec![partition(0, &["node-0", "node-1"], Some("node-0"))],
        backend: LogBackend::Durable,
    });
    for k in 0..bytes.len() {
        assert!(try_decode_cluster_command(&bytes[..k]).is_none(), "cut at {}", k);
    }
}
