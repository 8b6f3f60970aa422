use qmdb::def::{SENTRY_COUNT, SHARD_COUNT, SHARD_DIV};
use qmdb::sharding::{
    get_current_sentry_count, get_current_shard_count, get_current_shard_div, set_shard_count,
    Sharding,
};

#[test]
fn test_shard_count_power_of_two() {
    let mut sharding = Sharding::new();
    set_shard_count(&mut sharding, 3);
    assert_eq!(get_current_shard_count(&sharding), 4);

    set_shard_count(&mut sharding, 15);
    assert_eq!(get_current_shard_count(&sharding), 16);

    set_shard_count(&mut sharding, 17);
    assert_eq!(get_current_shard_count(&sharding), 32);
}

#[test]
fn test_sentry_count() {
    let mut sharding = Sharding::new();
    set_shard_count(&mut sharding, 16);
    assert_eq!(get_current_sentry_count(&sharding), SENTRY_COUNT);

    set_shard_count(&mut sharding, 32);
    assert_eq!(get_current_sentry_count(&sharding), SENTRY_COUNT / 2);
}

#[test]
fn test_shard_div() {
    let mut sharding = Sharding::new();
    set_shard_count(&mut sharding, 16);
    assert_eq!(get_current_shard_div(&sharding), SHARD_DIV);

    set_shard_count(&mut sharding, 32);
    assert_eq!(get_current_shard_div(&sharding), SHARD_DIV / 2);
}

#[test]
fn starts_with_the_default_shard_count() {
    let sharding = Sharding::new();
    assert_eq!(get_current_shard_count(&sharding), SHARD_COUNT);
    assert_eq!(get_current_shard_count(&sharding), 16);
    assert_eq!(get_current_shard_div(&sharding), 4096);
}

#[test]
fn no_shard_count_is_zero() {
    let mut sharding = Sharding::new();
    set_shard_count(&mut sharding, 0);
    assert_eq!(get_current_shard_count(&sharding), 1);
    assert_eq!(get_current_sentry_count(&sharding), 65536);

    set_shard_count(&mut sharding, usize::MAX);
    assert_eq!(get_current_shard_count(&sharding), 1);

    set_shard_count(&mut sharding, usize::MAX / 2 + 1);
    assert_eq!(get_current_shard_count(&sharding), usize::MAX / 2 + 1);
    assert_eq!(get_current_shard_div(&sharding), 0);
}

#[test]
fn shards_share_out_the_prefixes() {
    let mut sharding = Sharding::new();
    for count in [1usize, 2, 64, 1000, 65536] {
        set_shard_count(&mut sharding, count);
        let shards = get_current_shard_count(&sharding);
        assert_eq!(shards * get_current_shard_div(&sharding), 65536);
        assert_eq!(
            get_current_sentry_count(&sharding),
            get_current_shard_div(&sharding)
        );
        set_shard_count(&mut sharding, shards);
        assert_eq!(get_current_shard_count(&sharding), shards);
    }
}
