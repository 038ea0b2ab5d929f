use afp_dumper::triplet::{triplets, FQN_ATTRIBUTE_NAME, T_ATTR_VALUE, T_FQN};

fn triplet(id: u8, body: &[u8]) -> Vec<u8> {
    let mut v = vec![(body.len() + 2) as u8, id];
    v.extend_from_slice(body);
    v
}

#[test]
fn walks_a_tle_triplet_sequence() {
    // X'01' declares a code page and X'80' is an attribute qualifier —
    // both describe the field rather than carry its content, so the walker
    // steps over them and only the name and value are reachable
    let mut data = triplet(0x01, &[0xff, 0xff, 0x01, 0xf4]);
    data.extend(triplet(T_FQN, &[FQN_ATTRIBUTE_NAME, 0x00, b'A', b'B']));
    data.extend(triplet(T_ATTR_VALUE, &[0x00, 0x00, b'1']));
    data.extend(triplet(0x80, &[0, 0, 0, 7, 0, 0, 0, 1]));

    let found: Vec<_> = triplets(&data).collect();
    assert_eq!(found.len(), 4);

    let fqn = found[1].as_fqn().unwrap();
    assert_eq!(fqn.fqn_type, FQN_ATTRIBUTE_NAME);
    assert_eq!(fqn.name, b"AB");

    assert_eq!(found[2].as_attr_value().unwrap(), b"1");
}

#[test]
fn null_attribute_value_is_not_an_error() {
    let data = triplet(T_ATTR_VALUE, &[0x00, 0x00]);
    let t = triplets(&data).next().unwrap();
    assert_eq!(t.as_attr_value().unwrap(), b"");
}

#[test]
fn stops_on_malformed_lengths() {
    // length 0 and length past the end both terminate the walk
    assert_eq!(triplets(&[0x00, 0x01, 0x02]).count(), 0);
    assert_eq!(triplets(&[0xf0, 0x01, 0x02]).count(), 0);
    // a good triplet followed by a bad one yields only the good one
    let mut data = triplet(T_FQN, &[0x0b, 0x00, b'X']);
    data.extend_from_slice(&[0xf0, 0x36]);
    assert_eq!(triplets(&data).count(), 1);
}

#[test]
fn short_bodies_are_no_fqn_or_value() {
    let data = triplet(T_FQN, &[0x0b]);
    let t = triplets(&data).next().unwrap();
    assert_eq!(t.id, T_FQN);
    assert!(t.as_fqn().is_none());
    assert!(t.as_attr_value().is_none());
}

#[test]
fn the_walk_ends_and_stays_ended() {
    let data = triplet(0x01, &[0x00]);
    let mut it = triplets(&data);
    let t = it.next().unwrap();
    assert_eq!(t.id, 0x01);
    assert_eq!(t.body, &[0x00]);
    assert!(it.next().is_none());
    assert!(it.next().is_none());
    // a single trailing byte is too short for another triplet
    let mut data = triplet(0x01, &[]);
    data.push(0x05);
    assert_eq!(triplets(&data).count(), 1);
}

#[test]
fn the_walk_reads_back_the_bytes_it_steps_over() {
    let mut data = triplet(0x01, &[1, 2, 3]);
    data.extend(triplet(0x02, &[]));
    data.extend_from_slice(&[0x09, 0x00]);
    let mut rebuilt = Vec::new();
    for t in triplets(&data).collect() {
        rebuilt.extend(triplet(t.id, t.body));
    }
    assert_eq!(rebuilt, data[..rebuilt.len()].to_vec());
    assert_eq!(rebuilt.len(), 7);
}

#[test]
fn each_triplet_starts_where_the_one_before_ends() {
    // lengths 3, 4, then a length of 1 (malformed), then a well-formed triplet
    // the walk must not resync into
    let data = [3u8, 0x10, 0xAA, 4, 0x20, 0xBB, 0xCC, 1, 5, 0x30, 1, 2, 3];
    let mut it = triplets(&data);
    let t = it.next().unwrap();
    assert_eq!((t.id, t.body), (0x10, &data[2..3]));
    let t = it.next().unwrap();
    assert_eq!((t.id, t.body), (0x20, &data[5..7]));
    for _ in 0..3 {
        assert!(it.next().is_none());
    }
}
