use fractonkv::codec::Frame;
use fractonkv::commands::Command;
use fractonkv::commands::CommandKind;
use fractonkv::engine::TcpEngine;
use fractonkv::engine::IDLE_READ_TIMEOUT_MS;
use fractonkv::errors::CommandExecutionError;
use fractonkv::manager::ShardManager;
use fractonkv::ring::ConsistentHashRing;
use fractonkv::shard::Shard;
use fractonkv::shard::ShardJob;
use fractonkv::MAX_REQ_BYTES;

fn b(s: &str) -> Vec<u8> {
    s.as_bytes().to_vec()
}

fn bulk(s: &str) -> Frame {
    Frame::Bulk(b(s))
}

fn cmd(parts: &[&str]) -> Frame {
    Frame::Array(parts.iter().map(|p| bulk(p)).collect())
}

#[test]
fn routing_is_deterministic() {
    let ring = ConsistentHashRing::new(vec![0, 1, 2, 3], 16);
    for key in ["a", "b", "user:1234", "", "long key with spaces"] {
        let first = ring.get_shard(&b(key));
        let second = ring.get_shard(&b(key));
        assert_eq!(first, second);
    }
}

#[test]
fn single_shard_ring_routes_everything_to_it() {
    let ring = ConsistentHashRing::new(vec![7], 4);
    for key in ["a", "b", "c", "anything at all"] {
        assert_eq!(ring.get_shard(&b(key)), 7);
    }
}

#[test]
fn manager_routes_within_shard_count() {
    let mgr = ShardManager::new(5);
    assert_eq!(mgr.num_shards(), 5);
    for i in 0..200usize {
        let key = format!("key-{}", i);
        let shard = mgr.shard_for_key(&key.as_bytes().to_vec());
        assert!(shard < 5);
        assert_eq!(shard, mgr.shard_for_key(&key.as_bytes().to_vec()));
    }
}

#[test]
fn manager_spreads_keys_over_shards() {
    // With many keys and virtual nodes, more than one shard gets work.
    let mgr = ShardManager::new(4);
    let mut seen = [false; 4];
    for i in 0..256usize {
        let key = format!("key-{}", i);
        seen[mgr.shard_for_key(&key.as_bytes().to_vec())] = true;
    }
    assert!(seen.iter().filter(|s| **s).count() >= 2);
}

#[test]
fn command_route_extracts_the_key() {
    let ring = ConsistentHashRing::new(vec![0, 1, 2], 8);
    let args = [bulk("mykey"), bulk("value")];
    let direct = ring.get_shard(&b("mykey"));
    assert_eq!(Command::Get.route(&args[..1], &ring), Ok(direct));
    assert_eq!(Command::SetCmd.route(&args, &ring), Ok(direct));
    assert_eq!(
        Command::Get.route(&[], &ring),
        Err(CommandExecutionError::WrongArity(CommandKind::Get))
    );
    assert_eq!(
        Command::SetCmd.route(&[Frame::Integer(1)], &ring),
        Err(CommandExecutionError::WrongArity(CommandKind::SetCmd))
    );
}

#[test]
fn shard_answers_jobs_in_submission_order() {
    // N commands on one connection to one shard: N replies, in order.
    let mut shard = Shard::new(3);
    assert_eq!(shard.id, 3);
    let jobs = vec![
        ShardJob { id: 1, frame: cmd(&["SET", "a", "1"]) },
        ShardJob { id: 2, frame: cmd(&["GET", "a"]) },
        ShardJob { id: 3, frame: cmd(&["SET", "a", "2"]) },
        ShardJob { id: 4, frame: cmd(&["GET", "a"]) },
        ShardJob { id: 5, frame: cmd(&["GET", "never"]) },
    ];
    let replies = shard.run_jobs(&jobs, 0);
    assert_eq!(replies.len(), jobs.len());
    assert_eq!(replies[0], Frame::Simple(b("OK")));
    assert_eq!(replies[1], Frame::Bulk(b("1")));
    assert_eq!(replies[2], Frame::Simple(b("OK")));
    assert_eq!(replies[3], Frame::Bulk(b("2")));
    assert_eq!(replies[4], Frame::Null);
}

#[test]
fn shard_jobs_touch_only_their_own_keys() {
    let mut shard = Shard::new(0);
    let jobs = vec![
        ShardJob { id: 1, frame: cmd(&["SET", "x", "vx"]) },
        ShardJob { id: 2, frame: cmd(&["SET", "y", "vy"]) },
        ShardJob { id: 3, frame: cmd(&["GET", "z"]) },
    ];
    let replies = shard.run_jobs(&jobs, 0);
    assert_eq!(replies[2], Frame::Null);
    let one = shard.run_jobs(&vec![ShardJob { id: 4, frame: cmd(&["GET", "x"]) }], 1);
    assert_eq!(one[0], Frame::Bulk(b("vx")));
}

#[test]
fn engine_carries_the_connection_limits() {
    let engine = TcpEngine::new();
    assert_eq!(engine.idle_timeout_ms, IDLE_READ_TIMEOUT_MS);
    assert_eq!(engine.max_req_bytes, MAX_REQ_BYTES);
    assert_eq!(IDLE_READ_TIMEOUT_MS, 30_000);
    assert_eq!(MAX_REQ_BYTES, 16 * 1024);
}

#[test]
fn command_kind_mapping() {
    assert_eq!(Command::Get.kind(), CommandKind::Get);
    assert_eq!(Command::SetCmd.kind(), CommandKind::SetCmd);
}
